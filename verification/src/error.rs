use vstd::prelude::*;

use crate::model::opt_event_view;
use crate::naming::{naming_error_message, NamingError, NamingErrorView};
use crate::types::{Action, Event};

verus! {

/// Why a collected FSM could not be built.
#[derive(Debug, PartialEq, Eq)]
pub enum BuildError {
    /// The FSM's name is empty or whitespace.
    EmptyName,
    /// Not exactly one top-level state is marked initial; holds their names, joined by ", ".
    InvalidEnterStates(String),
    /// An action is the effect of transitions triggered by different events.
    MultipleEventsPerAction { action: Action, events: String },
    /// A state has more than one unguarded transition for the same event (or none).
    ConflictingTransitions { state: String, event: Option<Event> },
    /// A state has two transitions for the same event (or none) with the same guard.
    DuplicateGuard(Option<Event>),
    /// A substate exits its region to `[*]`, but its parent has no completion transition.
    SubstateExitWithoutCompletion { state: String, parent: String },
}

/// The mathematical view of a [`BuildError`].
pub enum BuildErrorView {
    EmptyName,
    InvalidEnterStates(Seq<char>),
    MultipleEventsPerAction { action: Seq<char>, events: Seq<char> },
    ConflictingTransitions { state: Seq<char>, event: Option<Seq<char>> },
    DuplicateGuard(Option<Seq<char>>),
    SubstateExitWithoutCompletion { state: Seq<char>, parent: Seq<char> },
}

impl View for BuildError {
    type V = BuildErrorView;

    open spec fn view(&self) -> BuildErrorView {
        match *self {
            BuildError::EmptyName => BuildErrorView::EmptyName,
            BuildError::InvalidEnterStates(names) => BuildErrorView::InvalidEnterStates(names@),
            BuildError::MultipleEventsPerAction { action, events } =>
                BuildErrorView::MultipleEventsPerAction { action: action@, events: events@ },
            BuildError::ConflictingTransitions { state, event } =>
                BuildErrorView::ConflictingTransitions { state: state@, event: opt_event_view(event) },
            BuildError::DuplicateGuard(event) => BuildErrorView::DuplicateGuard(opt_event_view(event)),
            BuildError::SubstateExitWithoutCompletion { state, parent } =>
                BuildErrorView::SubstateExitWithoutCompletion { state: state@, parent: parent@ },
        }
    }
}

/// How `Debug` prints a string: quoted, with quotes, backslashes and control characters
/// escaped.
pub uninterp spec fn str_debug_text(s: Seq<char>) -> Seq<char>;

/// `<str as Debug>::fmt`, through `format!("{:?}", ..)`.
#[verifier::external_body]
fn debug_str(s: &str) -> (r: String)
    ensures
        r@ == str_debug_text(s@),
{
    format!("{:?}", s)
}

/// How the derived `Debug` impls print an optional event: `None`, or `Some(Event("name"))`.
pub open spec fn event_debug_text(event: Option<Seq<char>>) -> Seq<char> {
    match event {
        None => "None"@,
        Some(name) => "Some(Event("@ + str_debug_text(name) + "))"@,
    }
}

/// An optional event as its `Debug` text.
fn debug_event(event: &Option<Event>) -> (r: String)
    ensures
        r@ == event_debug_text(opt_event_view(*event)),
{
    match event {
        None => "None".to_owned(),
        Some(e) => {
            let mut r = "Some(Event(".to_owned();
            let name = debug_str(e.0.as_str());
            r.append(name.as_str());
            r.append("))");
            r
        },
    }
}

/// The message of a build error.
pub open spec fn build_error_message(e: BuildErrorView) -> Seq<char> {
    match e {
        BuildErrorView::EmptyName => "FSM name cannot be empty"@,
        BuildErrorView::InvalidEnterStates(names) => "FSM must have exactly one enter state, found "@ + names,
        BuildErrorView::MultipleEventsPerAction { action, events } =>
            "Action "@ + action + " is associated with multiple events: "@ + events,
        BuildErrorView::ConflictingTransitions { state, event } =>
            "State '"@ + state + "' has multiple transitions for event "@ + event_debug_text(event),
        BuildErrorView::DuplicateGuard(event) => "Duplicate guard for event "@ + event_debug_text(event),
        BuildErrorView::SubstateExitWithoutCompletion { state, parent } =>
            "State '"@ + state + "' exits its region to [*], but its parent '"@ + parent
                + "' has no completion transition"@,
    }
}

/// `a` followed by `b`.
pub fn concat(a: &str, b: &str) -> (r: String)
    ensures
        r@ == a@ + b@,
{
    let mut r = a.to_owned();
    r.append(b);
    r
}

impl BuildError {
    /// The error's message.
    pub fn to_string(&self) -> (r: String)
        ensures
            r@ == build_error_message(self@),
    {
        match self {
            BuildError::EmptyName => "FSM name cannot be empty".to_owned(),
            BuildError::InvalidEnterStates(names) => concat("FSM must have exactly one enter state, found ", names.as_str()),
            BuildError::MultipleEventsPerAction { action, events } => {
                let mut r = concat("Action ", action.0.as_str());
                r.append(" is associated with multiple events: ");
                r.append(events.as_str());
                r
            },
            BuildError::ConflictingTransitions { state, event } => {
                let mut r = concat("State '", state.as_str());
                r.append("' has multiple transitions for event ");
                let d = debug_event(event);
                r.append(d.as_str());
                r
            },
            BuildError::DuplicateGuard(event) => {
                let d = debug_event(event);
                concat("Duplicate guard for event ", d.as_str())
            },
            BuildError::SubstateExitWithoutCompletion { state, parent } => {
                let mut r = concat("State '", state.as_str());
                r.append("' exits its region to [*], but its parent '");
                r.append(parent.as_str());
                r.append("' has no completion transition");
                r
            },
        }
    }
}


/// Why a diagram could not be read.
#[derive(Debug, PartialEq, Eq)]
pub enum ParseError {
    /// A line that fits no form of the diagram language.
    Grammar(String),
    /// No diagram in the input.
    EmptyInput,
    /// A transition without its source state.
    MissingSourceState,
    /// A transition without its destination state.
    MissingDestinationState,
    /// A composite state without a name.
    MissingCompositeStateName,
    /// A state description without the state's name.
    MissingStateName,
    /// A state description without the description.
    MissingDescription,
    /// A transition label that cannot be read.
    InvalidTransitionDescription(String),
    /// A transition label with no event, guard or action.
    EmptyTransition,
    /// A state description that cannot be read.
    InvalidStateDescription(String),
    /// A state description of no known kind.
    UnrecognisedStateDescription(String),
    /// An entry or exit description without its action.
    MissingStateAction,
    /// An action without a name.
    MissingActionName,
    /// An event without a name.
    MissingEventName,
    /// Two sub-FSMs share a name.
    DuplicateSubMachine(String),
    /// A sub-FSM without an `@startuml` name.
    UnnamedSubMachine,
    /// A sub-FSM reference that leads back to a sub-FSM being expanded.
    CyclicSubMachine(String),
    /// A diagram whose expansion has more operations than an FSM can hold.
    TooLarge,
}

/// The mathematical view of a [`ParseError`].
pub enum ParseErrorView {
    Grammar(Seq<char>),
    EmptyInput,
    MissingSourceState,
    MissingDestinationState,
    MissingCompositeStateName,
    MissingStateName,
    MissingDescription,
    InvalidTransitionDescription(Seq<char>),
    EmptyTransition,
    InvalidStateDescription(Seq<char>),
    UnrecognisedStateDescription(Seq<char>),
    MissingStateAction,
    MissingActionName,
    MissingEventName,
    DuplicateSubMachine(Seq<char>),
    UnnamedSubMachine,
    CyclicSubMachine(Seq<char>),
    TooLarge,
}

impl View for ParseError {
    type V = ParseErrorView;

    open spec fn view(&self) -> ParseErrorView {
        match *self {
            ParseError::Grammar(s) => ParseErrorView::Grammar(s@),
            ParseError::EmptyInput => ParseErrorView::EmptyInput,
            ParseError::MissingSourceState => ParseErrorView::MissingSourceState,
            ParseError::MissingDestinationState => ParseErrorView::MissingDestinationState,
            ParseError::MissingCompositeStateName => ParseErrorView::MissingCompositeStateName,
            ParseError::MissingStateName => ParseErrorView::MissingStateName,
            ParseError::MissingDescription => ParseErrorView::MissingDescription,
            ParseError::InvalidTransitionDescription(s) => ParseErrorView::InvalidTransitionDescription(s@),
            ParseError::EmptyTransition => ParseErrorView::EmptyTransition,
            ParseError::InvalidStateDescription(s) => ParseErrorView::InvalidStateDescription(s@),
            ParseError::UnrecognisedStateDescription(s) => ParseErrorView::UnrecognisedStateDescription(s@),
            ParseError::MissingStateAction => ParseErrorView::MissingStateAction,
            ParseError::MissingActionName => ParseErrorView::MissingActionName,
            ParseError::MissingEventName => ParseErrorView::MissingEventName,
            ParseError::DuplicateSubMachine(s) => ParseErrorView::DuplicateSubMachine(s@),
            ParseError::UnnamedSubMachine => ParseErrorView::UnnamedSubMachine,
            ParseError::CyclicSubMachine(s) => ParseErrorView::CyclicSubMachine(s@),
            ParseError::TooLarge => ParseErrorView::TooLarge,
        }
    }
}

/// The message of a parse error.
pub open spec fn parse_error_message(e: ParseErrorView) -> Seq<char> {
    match e {
        ParseErrorView::Grammar(s) => "PlantUML grammar error: "@ + s,
        ParseErrorView::EmptyInput => "Empty input"@,
        ParseErrorView::MissingSourceState => "Missing source state in transition"@,
        ParseErrorView::MissingDestinationState => "Missing destination state in transition"@,
        ParseErrorView::MissingCompositeStateName => "Missing name in composite state"@,
        ParseErrorView::MissingStateName => "Missing state name in state description"@,
        ParseErrorView::MissingDescription => "Missing description in state description"@,
        ParseErrorView::InvalidTransitionDescription(s) => "Invalid transition description: "@ + s,
        ParseErrorView::EmptyTransition => "Transition must have at least an event, guard, or action"@,
        ParseErrorView::InvalidStateDescription(s) => "Invalid state description: "@ + s,
        ParseErrorView::UnrecognisedStateDescription(s) => "Unrecognised state description: "@ + s,
        ParseErrorView::MissingStateAction => "Expected entry or exit action"@,
        ParseErrorView::MissingActionName => "Action name is required"@,
        ParseErrorView::MissingEventName => "Event name is required"@,
        ParseErrorView::DuplicateSubMachine(s) => "duplicate sub-FSM name '"@ + s + "'"@,
        ParseErrorView::UnnamedSubMachine => "a sub-FSM is missing its @startuml name"@,
        ParseErrorView::CyclicSubMachine(s) => "cyclic sub-FSM reference: '"@ + s + "' is already being expanded"@,
        ParseErrorView::TooLarge => "Diagram too large"@,
    }
}

impl ParseError {
    /// The error's message.
    pub fn to_string(&self) -> (r: String)
        ensures
            r@ == parse_error_message(self@),
    {
        match self {
            ParseError::Grammar(s) => concat("PlantUML grammar error: ", s.as_str()),
            ParseError::EmptyInput => "Empty input".to_owned(),
            ParseError::MissingSourceState => "Missing source state in transition".to_owned(),
            ParseError::MissingDestinationState => "Missing destination state in transition".to_owned(),
            ParseError::MissingCompositeStateName => "Missing name in composite state".to_owned(),
            ParseError::MissingStateName => "Missing state name in state description".to_owned(),
            ParseError::MissingDescription => "Missing description in state description".to_owned(),
            ParseError::InvalidTransitionDescription(s) => concat("Invalid transition description: ", s.as_str()),
            ParseError::EmptyTransition => "Transition must have at least an event, guard, or action".to_owned(),
            ParseError::InvalidStateDescription(s) => concat("Invalid state description: ", s.as_str()),
            ParseError::UnrecognisedStateDescription(s) => concat("Unrecognised state description: ", s.as_str()),
            ParseError::MissingStateAction => "Expected entry or exit action".to_owned(),
            ParseError::MissingActionName => "Action name is required".to_owned(),
            ParseError::MissingEventName => "Event name is required".to_owned(),
            ParseError::DuplicateSubMachine(s) => {
                let mut r = concat("duplicate sub-FSM name '", s.as_str());
                r.append("'");
                r
            },
            ParseError::UnnamedSubMachine => "a sub-FSM is missing its @startuml name".to_owned(),
            ParseError::CyclicSubMachine(s) => {
                let mut r = concat("cyclic sub-FSM reference: '", s.as_str());
                r.append("' is already being expanded");
                r
            },
            ParseError::TooLarge => "Diagram too large".to_owned(),
        }
    }
}

/// Why an FSM could not be produced.
#[derive(Debug, PartialEq, Eq)]
pub enum Error {
    /// The macro input could not be read.
    InvalidInput(String),
    /// The diagram could not be read.
    Parse(ParseError),
    /// The diagram does not describe a valid FSM.
    Build(BuildError),
    /// The naming template could not be rendered.
    NamingTemplate(NamingError),
}

/// The mathematical view of an [`Error`].
pub enum ErrorView {
    InvalidInput(Seq<char>),
    Parse(ParseErrorView),
    Build(BuildErrorView),
    NamingTemplate(NamingErrorView),
}

impl View for Error {
    type V = ErrorView;

    open spec fn view(&self) -> ErrorView {
        match *self {
            Error::InvalidInput(s) => ErrorView::InvalidInput(s@),
            Error::Parse(e) => ErrorView::Parse(e@),
            Error::Build(e) => ErrorView::Build(e@),
            Error::NamingTemplate(e) => ErrorView::NamingTemplate(e@),
        }
    }
}

/// The message of an error.
pub open spec fn error_message(e: ErrorView) -> Seq<char> {
    match e {
        ErrorView::InvalidInput(s) => "Invalid input: "@ + s,
        ErrorView::Parse(p) => "Parse error: "@ + parse_error_message(p),
        ErrorView::Build(b) => "Build error: "@ + build_error_message(b),
        ErrorView::NamingTemplate(n) => "Naming template error: "@ + naming_error_message(n),
    }
}

impl Error {
    /// The error's message.
    pub fn to_string(&self) -> (r: String)
        ensures
            r@ == error_message(self@),
    {
        match self {
            Error::InvalidInput(s) => concat("Invalid input: ", s.as_str()),
            Error::Parse(e) => {
                let m = e.to_string();
                concat("Parse error: ", m.as_str())
            },
            Error::Build(e) => {
                let m = e.to_string();
                concat("Build error: ", m.as_str())
            },
            Error::NamingTemplate(e) => {
                let m = e.to_string();
                concat("Naming template error: ", m.as_str())
            },
        }
    }
}

} // verus!
