use vstd::prelude::*;

use crate::types::{Action, Event};

verus! {

/// Index of a state in the FSM's state arena.
pub type StateId = usize;

/// The kinds of transition a state diagram can express.
#[allow(inconsistent_fields)]
#[derive(Debug, Clone, Copy, PartialEq, Eq)]
pub enum TransitionKind<S, E, A> {
    /// `S --> target : event [guard] / action`: exits `S` and enters `target`.
    Event { source: S, event: E, target: S, action: Option<A>, guard: Option<A> },
    /// `S : event [guard] / action`: runs the action without leaving the state.
    Internal { source: S, event: E, action: Option<A>, guard: Option<A> },
    /// `S --> target : [guard] / action`: a completion transition that fires on its own.
    Direct { source: S, target: S, action: Option<A>, guard: Option<A> },
    /// `[*] --> target`: marks `target` as the state its scope starts in.
    Enter { target: S },
    /// `S --> [*] : event [guard] / action`: leaves `S` for the final pseudo-state.
    Final { source: S, event: Option<E>, action: Option<A>, guard: Option<A> },
}

/// A transition as stored in the arena: states are referred to by their index.
pub type TransitionData = TransitionKind<StateId, Event, Action>;

/// A transition as handed to the builder: states are referred to by name.
pub type TransitionParameters<'a> = TransitionKind<&'a str, Event, Action>;

/// The mathematical view of a stored transition: event and action names as character
/// sequences.
pub type TransitionView = TransitionKind<StateId, Seq<char>, Seq<char>>;

/// The mathematical view of builder parameters: state names as character sequences.
pub type ParamsView = TransitionKind<Seq<char>, Seq<char>, Seq<char>>;

/// The view of an optional event: its name, if any.
pub open spec fn opt_event_view(o: Option<Event>) -> Option<Seq<char>> {
    match o {
        Some(e) => Some(e@),
        None => None,
    }
}

/// The view of an optional action: its name, if any.
pub open spec fn opt_action_view(o: Option<Action>) -> Option<Seq<char>> {
    match o {
        Some(a) => Some(a@),
        None => None,
    }
}

impl View for TransitionKind<StateId, Event, Action> {
    type V = TransitionView;

    open spec fn view(&self) -> TransitionView {
        match *self {
            TransitionKind::Event { source, event, target, action, guard } => TransitionKind::Event {
                source,
                event: event@,
                target,
                action: opt_action_view(action),
                guard: opt_action_view(guard),
            },
            TransitionKind::Internal { source, event, action, guard } => TransitionKind::Internal {
                source,
                event: event@,
                action: opt_action_view(action),
                guard: opt_action_view(guard),
            },
            TransitionKind::Direct { source, target, action, guard } => TransitionKind::Direct {
                source,
                target,
                action: opt_action_view(action),
                guard: opt_action_view(guard),
            },
            TransitionKind::Enter { target } => TransitionKind::Enter { target },
            TransitionKind::Final { source, event, action, guard } => TransitionKind::Final {
                source,
                event: opt_event_view(event),
                action: opt_action_view(action),
                guard: opt_action_view(guard),
            },
        }
    }
}

impl<'a> View for TransitionKind<&'a str, Event, Action> {
    type V = ParamsView;

    open spec fn view(&self) -> ParamsView {
        match *self {
            TransitionKind::Event { source, event, target, action, guard } => TransitionKind::Event {
                source: source@,
                event: event@,
                target: target@,
                action: opt_action_view(action),
                guard: opt_action_view(guard),
            },
            TransitionKind::Internal { source, event, action, guard } => TransitionKind::Internal {
                source: source@,
                event: event@,
                action: opt_action_view(action),
                guard: opt_action_view(guard),
            },
            TransitionKind::Direct { source, target, action, guard } => TransitionKind::Direct {
                source: source@,
                target: target@,
                action: opt_action_view(action),
                guard: opt_action_view(guard),
            },
            TransitionKind::Enter { target } => TransitionKind::Enter { target: target@ },
            TransitionKind::Final { source, event, action, guard } => TransitionKind::Final {
                source: source@,
                event: opt_event_view(event),
                action: opt_action_view(action),
                guard: opt_action_view(guard),
            },
        }
    }
}

impl TransitionKind<StateId, Seq<char>, Seq<char>> {
    /// The state that owns the transition (for `Enter`, its target).
    pub open spec fn src(self) -> StateId {
        match self {
            TransitionKind::Event { source, .. } => source,
            TransitionKind::Internal { source, .. } => source,
            TransitionKind::Direct { source, .. } => source,
            TransitionKind::Enter { target } => target,
            TransitionKind::Final { source, .. } => source,
        }
    }

    /// The name of the triggering event, if the transition has one.
    pub open spec fn ev(self) -> Option<Seq<char>> {
        match self {
            TransitionKind::Event { event, .. } => Some(event),
            TransitionKind::Internal { event, .. } => Some(event),
            TransitionKind::Final { event, .. } => event,
            _ => None,
        }
    }

    /// The name of the transition's action, if any.
    pub open spec fn act(self) -> Option<Seq<char>> {
        match self {
            TransitionKind::Event { action, .. } => action,
            TransitionKind::Internal { action, .. } => action,
            TransitionKind::Direct { action, .. } => action,
            TransitionKind::Enter { .. } => None,
            TransitionKind::Final { action, .. } => action,
        }
    }

    /// The name of the transition's guard, if any.
    pub open spec fn grd(self) -> Option<Seq<char>> {
        match self {
            TransitionKind::Event { guard, .. } => guard,
            TransitionKind::Internal { guard, .. } => guard,
            TransitionKind::Direct { guard, .. } => guard,
            TransitionKind::Enter { .. } => None,
            TransitionKind::Final { guard, .. } => guard,
        }
    }

    /// The state the transition leads to, if it leads to a state.
    pub open spec fn dst(self) -> Option<StateId> {
        match self {
            TransitionKind::Event { target, .. } => Some(target),
            TransitionKind::Direct { target, .. } => Some(target),
            _ => None,
        }
    }

    /// Every state the transition mentions lies below `n`.
    pub open spec fn ids_below(self, n: nat) -> bool {
        &&& self.src() < n
        &&& (self.dst() matches Some(t) ==> t < n)
    }
}

impl TransitionKind<StateId, Event, Action> {
    /// The owning state.
    pub fn source(&self) -> (r: StateId)
        ensures
            r == self@.src(),
    {
        match self {
            TransitionKind::Event { source, .. } => *source,
            TransitionKind::Internal { source, .. } => *source,
            TransitionKind::Direct { source, .. } => *source,
            TransitionKind::Enter { target } => *target,
            TransitionKind::Final { source, .. } => *source,
        }
    }

    /// The triggering event, if any.
    pub fn event(&self) -> (r: Option<&Event>)
        ensures
            r is Some == self@.ev() is Some,
            r matches Some(e) ==> self@.ev() == Some(e@),
    {
        match self {
            TransitionKind::Event { event, .. } => Some(event),
            TransitionKind::Internal { event, .. } => Some(event),
            TransitionKind::Final { event, .. } => event.as_ref(),
            _ => None,
        }
    }

    /// The transition's action, if any.
    pub fn action(&self) -> (r: Option<&Action>)
        ensures
            r is Some == self@.act() is Some,
            r matches Some(a) ==> self@.act() == Some(a@),
    {
        match self {
            TransitionKind::Event { action, .. } => action.as_ref(),
            TransitionKind::Internal { action, .. } => action.as_ref(),
            TransitionKind::Direct { action, .. } => action.as_ref(),
            TransitionKind::Enter { .. } => None,
            TransitionKind::Final { action, .. } => action.as_ref(),
        }
    }

    /// The transition's guard, if any.
    pub fn guard(&self) -> (r: Option<&Action>)
        ensures
            r is Some == self@.grd() is Some,
            r matches Some(g) ==> self@.grd() == Some(g@),
    {
        match self {
            TransitionKind::Event { guard, .. } => guard.as_ref(),
            TransitionKind::Internal { guard, .. } => guard.as_ref(),
            TransitionKind::Direct { guard, .. } => guard.as_ref(),
            TransitionKind::Enter { .. } => None,
            TransitionKind::Final { guard, .. } => guard.as_ref(),
        }
    }

    /// The target state, for transitions that lead to a state.
    pub fn destination(&self) -> (r: Option<StateId>)
        ensures
            r == self@.dst(),
    {
        match self {
            TransitionKind::Event { target, .. } => Some(*target),
            TransitionKind::Direct { target, .. } => Some(*target),
            _ => None,
        }
    }

    /// Whether this is the `[*] --> S` pseudo-transition.
    pub fn is_enter(&self) -> (r: bool)
        ensures
            r == (self@ is Enter),
    {
        match self {
            TransitionKind::Enter { .. } => true,
            _ => false,
        }
    }

    /// Whether this is an exit to the final pseudo-state.
    pub fn is_final(&self) -> (r: bool)
        ensures
            r == (self@ is Final),
    {
        match self {
            TransitionKind::Final { .. } => true,
            _ => false,
        }
    }

    /// Whether this is a completion (`Direct`) transition.
    pub fn is_direct(&self) -> (r: bool)
        ensures
            r == (self@ is Direct),
    {
        match self {
            TransitionKind::Direct { .. } => true,
            _ => false,
        }
    }

    /// A copy of this transition.
    pub fn duplicate(&self) -> (r: TransitionData)
        ensures
            r@ == self@,
    {
        match self {
            TransitionKind::Event { source, event, target, action, guard } => TransitionKind::Event {
                source: *source,
                event: event.duplicate(),
                target: *target,
                action: dup_action(action),
                guard: dup_action(guard),
            },
            TransitionKind::Internal { source, event, action, guard } => TransitionKind::Internal {
                source: *source,
                event: event.duplicate(),
                action: dup_action(action),
                guard: dup_action(guard),
            },
            TransitionKind::Direct { source, target, action, guard } => TransitionKind::Direct {
                source: *source,
                target: *target,
                action: dup_action(action),
                guard: dup_action(guard),
            },
            TransitionKind::Enter { target } => TransitionKind::Enter { target: *target },
            TransitionKind::Final { source, event, action, guard } => TransitionKind::Final {
                source: *source,
                event: dup_event(event),
                action: dup_action(action),
                guard: dup_action(guard),
            },
        }
    }
}

/// A copy of an optional action.
pub fn dup_action(a: &Option<Action>) -> (r: Option<Action>)
    ensures
        opt_action_view(r) == opt_action_view(*a),
{
    match a {
        Some(a) => Some(a.duplicate()),
        None => None,
    }
}

/// A copy of an optional event.
pub fn dup_event(e: &Option<Event>) -> (r: Option<Event>)
    ensures
        opt_event_view(r) == opt_event_view(*e),
{
    match e {
        Some(e) => Some(e.duplicate()),
        None => None,
    }
}

/// Everything the arena stores about one state.
#[derive(Debug)]
pub struct StateData {
    pub name: String,
    pub transitions: Vec<TransitionData>,
    pub enter_action: Option<Action>,
    pub exit_action: Option<Action>,
    /// The state entered when this state's scope becomes active (set when the FSM is built).
    pub enter_state: Option<StateId>,
    /// Includes the inherited events from potential parents (once the FSM is built).
    pub deferred_events: Vec<Event>,
}

/// The mathematical view of a state's data.
pub struct StateView {
    pub name: Seq<char>,
    pub transitions: Seq<TransitionView>,
    pub enter_action: Option<Seq<char>>,
    pub exit_action: Option<Seq<char>>,
    pub enter_state: Option<StateId>,
    pub deferred_events: Seq<Seq<char>>,
}

impl View for StateData {
    type V = StateView;

    open spec fn view(&self) -> StateView {
        StateView {
            name: self.name@,
            transitions: self.transitions@.map_values(|t: TransitionData| t@),
            enter_action: opt_action_view(self.enter_action),
            exit_action: opt_action_view(self.exit_action),
            enter_state: self.enter_state,
            deferred_events: self.deferred_events@.map_values(|e: Event| e@),
        }
    }
}

/// A sequence of transitions holds an `Enter` pseudo-transition.
pub open spec fn has_enter(ts: Seq<TransitionView>) -> bool {
    exists|i: int| 0 <= i < ts.len() && (#[trigger] ts[i]) is Enter
}

/// A freshly created state with the given name.
pub open spec fn fresh_state(name: Seq<char>) -> StateView {
    StateView {
        name,
        transitions: Seq::empty(),
        enter_action: None,
        exit_action: None,
        enter_state: None,
        deferred_events: Seq::empty(),
    }
}

impl StateData {
    /// A fresh state with the given name and nothing else.
    pub fn new(name: &str) -> (r: StateData)
        ensures
            r@ == fresh_state(name@),
    {
        let r = StateData {
            name: name.to_owned(),
            transitions: Vec::new(),
            enter_action: None,
            exit_action: None,
            enter_state: None,
            deferred_events: Vec::new(),
        };
        assert(r@.transitions =~= Seq::<TransitionView>::empty());
        assert(r@.deferred_events =~= Seq::<Seq<char>>::empty());
        r
    }

    /// Whether this state is the initial state of its scope (owns an `Enter` transition).
    pub fn is_enter(&self) -> (r: bool)
        ensures
            r == has_enter(self@.transitions),
    {
        let n = self.transitions.len();
        let mut i: usize = 0;
        while i < n
            invariant
                n == self.transitions@.len(),
                i <= n,
                forall|j: int| 0 <= j < i ==> !(self.transitions@[j]@ is Enter),
            decreases n - i,
        {
            if self.transitions[i].is_enter() {
                assert(self@.transitions[i as int] is Enter);
                return true;
            }
            i = i + 1;
        }
        assert forall|j: int| 0 <= j < self@.transitions.len() implies !(#[trigger] self@.transitions[j] is Enter) by {
            assert(self@.transitions[j] == self.transitions@[j]@);
        }
        false
    }
}

} // verus!
