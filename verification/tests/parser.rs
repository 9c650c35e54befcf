use phyto_fsm::builder::UmlFsmBuilder;
use phyto_fsm::diagram::{Element, StateDiagram};
use phyto_fsm::error::{BuildError, Error, ParseError};
use phyto_fsm::fsm::{Transition, UmlFsm};
use phyto_fsm::model::{TransitionKind, TransitionParameters};
use phyto_fsm::types::{Action, Event};

/// An order-independent listing of everything an FSM holds.
fn describe(fsm: &UmlFsm) -> Vec<String> {
    let mut lines = vec![
        format!("name {}", fsm.name()),
        format!("start {}", fsm.enter_state().qualified_name("::")),
    ];
    for s in fsm.states() {
        let q = s.qualified_name("::");
        let deferred: Vec<String> = s.deferred_events().iter().map(|e| e.0.clone()).collect();
        lines.push(format!(
            "state {q} initial={} entry={:?} exit={:?} defers={:?} enters={}",
            s.is_enter(),
            s.enter_action().map(|a| a.0.clone()),
            s.exit_action().map(|a| a.0.clone()),
            deferred,
            s.enter_state().qualified_name("::"),
        ));
        for t in s.transitions() {
            lines.push(format!("{q} {}", transition_text(&t)));
        }
    }
    lines.sort();
    lines
}

fn transition_text(t: &Transition<'_>) -> String {
    let kind = match t {
        TransitionKind::Event { .. } => "event",
        TransitionKind::Internal { .. } => "internal",
        TransitionKind::Direct { .. } => "direct",
        TransitionKind::Enter { .. } => "enter",
        TransitionKind::Final { .. } => "final",
    };
    format!(
        "{kind} from={} on={:?} [{:?}] / {:?} to={:?}",
        t.source().qualified_name("::"),
        t.event().map(|e| e.0.clone()),
        t.guard().map(|g| g.0.clone()),
        t.action().map(|a| a.0.clone()),
        t.destination().map(|d| d.qualified_name("::")),
    )
}

fn event(
    source: &'static str,
    target: &'static str,
    name: &str,
    action: Option<&str>,
    guard: Option<&str>,
) -> TransitionParameters<'static> {
    TransitionParameters::Event {
        source,
        target,
        event: Event::from(name),
        action: action.map(Action::from),
        guard: guard.map(Action::from),
    }
}

fn build_transitions_fsm() -> Result<UmlFsm, Error> {
    let mut builder = UmlFsmBuilder::new("TestFsm");
    builder.add_transition(TransitionParameters::Enter { target: "StateA" });
    builder.add_transition(event("StateA", "StateA", "SelfTransition", Some("HandleSelfTransition"), None));
    builder.add_transition(event("StateA", "StateB", "GoToB", Some("HandleGoToB"), None));
    builder.add_transition(event("StateA", "StateB", "GoToBDifferently", Some("HandleGoToBDifferently"), None));
    builder.add_transition(event("StateA", "StateC", "GoToC", None, None));
    builder.add_transition(event("StateB", "StateA", "GoToA", None, None));
    builder.add_transition(event("StateB", "StateA", "GoToADifferently", None, None));
    builder.build()
}

const TRANSITIONS: &str = "\
@startuml TestFsm
' transitions between top-level states
[*] --> StateA
StateA --> StateA : SelfTransition / HandleSelfTransition
StateA --> StateB : GoToB / HandleGoToB
StateA --> StateB : GoToBDifferently / HandleGoToBDifferently
StateA --> StateC : GoToC
StateB --> StateA : GoToA, GoToADifferently
@enduml
";

#[test]
fn parses_transitions_and_event_lists() {
    let parsed = UmlFsm::try_parse(TRANSITIONS).unwrap();
    let built = build_transitions_fsm().unwrap();
    assert_eq!(describe(&parsed), describe(&built));
    assert_eq!(parsed.state_count(), 3);
}

fn build_direct_transitions_fsm() -> Result<UmlFsm, Error> {
    let mut builder = UmlFsmBuilder::new("DirectTransitions");
    builder.add_transition(TransitionParameters::Enter { target: "StateA" });
    builder.add_transition(TransitionParameters::Direct {
        source: "StateA",
        target: "StateB",
        action: Some(Action("ActionToB".into())),
        guard: None,
    });
    builder.add_transition(TransitionParameters::Direct {
        source: "StateB",
        target: "StateC",
        action: Some(Action("ActionToC".into())),
        guard: Some(Action("CanGoToC".into())),
    });
    builder.add_transition(TransitionParameters::Direct {
        source: "StateB",
        target: "StateD",
        action: None,
        guard: Some(Action("CanGoToD".into())),
    });
    builder.add_transition(event("StateB", "StateA", "GoToA", None, None));
    builder.add_enter_action("StateD", Action::from("EnterStateD"));
    builder.build()
}

const DIRECT_TRANSITIONS: &str = "\
@startuml DirectTransitions
[*] --> StateA
StateA --> StateB : / ActionToB
StateB --> StateC : [CanGoToC] / ActionToC
StateB --> StateD : [CanGoToD]
StateB --> StateA : GoToA
StateD : entry / EnterStateD
@enduml
";

#[test]
fn parses_direct_transitions_with_guards() {
    let parsed = UmlFsm::try_parse(DIRECT_TRANSITIONS).unwrap();
    let built = build_direct_transitions_fsm().unwrap();
    assert_eq!(describe(&parsed), describe(&built));
}

fn build_internal_transitions_fsm() -> Result<UmlFsm, Error> {
    let mut builder = UmlFsmBuilder::new("InternalTransitions");
    builder.add_transition(TransitionParameters::Enter { target: "StateA" });
    builder.add_enter_action("StateA", Action::from("EnterStateA"));
    builder.add_exit_action("StateA", Action::from("ExitStateA"));
    builder.add_transition(TransitionParameters::Internal {
        source: "StateA",
        event: Event("InternalEvent".into()),
        action: Some(Action("HandleInternalEvent".into())),
        guard: None,
    });
    builder.add_transition(event("StateA", "StateA", "SelfTransitionEvent", Some("HandleSelfTransitionEvent"), None));
    builder.add_transition(event("StateA", "StateB", "GoToB", None, None));
    let state_b = builder.add_state("StateB");
    builder.add_enter_action("StateB", Action::from("EnterStateB"));
    builder.add_exit_action("StateB", Action::from("ExitStateB"));
    builder.set_scope(Some(state_b));
    builder.add_transition(TransitionParameters::Enter { target: "StateBA" });
    builder.add_transition(TransitionParameters::Internal {
        source: "StateBA",
        event: Event("InternalEvent".into()),
        action: Some(Action("HandleInternalEvent".into())),
        guard: None,
    });
    builder.add_transition(event("StateBA", "StateBA", "SelfTransitionEvent", Some("HandleSelfTransitionEvent"), None));
    builder.build()
}

const INTERNAL_TRANSITIONS: &str = "\
@startuml InternalTransitions
[*] --> StateA
StateA : entry / EnterStateA
StateA : exit / ExitStateA
StateA : InternalEvent / HandleInternalEvent
StateA --> StateA : SelfTransitionEvent / HandleSelfTransitionEvent
StateA --> StateB : GoToB
state StateB {
    [*] --> StateBA
    StateBA : InternalEvent / HandleInternalEvent
    StateBA --> StateBA : SelfTransitionEvent / HandleSelfTransitionEvent
}
StateB : entry / EnterStateB
StateB : exit / ExitStateB
@enduml
";

#[test]
fn parses_internal_transitions_and_actions() {
    let parsed = UmlFsm::try_parse(INTERNAL_TRANSITIONS).unwrap();
    let built = build_internal_transitions_fsm().unwrap();
    assert_eq!(describe(&parsed), describe(&built));
}

fn build_exit_states_fsm() -> Result<UmlFsm, Error> {
    let mut builder = UmlFsmBuilder::new("ExitStates");
    builder.add_transition(TransitionParameters::Enter { target: "Active" });
    builder.add_exit_action("Active", Action::from("Cleanup"));
    builder.add_transition(event("Active", "Active", "Work", None, None));
    builder.add_transition(TransitionParameters::Final {
        source: "Active",
        event: Some(Event("Shutdown".into())),
        action: Some(Action("Goodbye".into())),
        guard: None,
    });
    builder.build()
}

const EXIT_STATES: &str = "\
@startuml ExitStates
[*] --> Active
Active : exit / Cleanup
Active --> Active : Work
Active --> [*] : Shutdown / Goodbye
@enduml
";

#[test]
fn parses_exit_to_final_state() {
    let parsed = UmlFsm::try_parse(EXIT_STATES).unwrap();
    let built = build_exit_states_fsm().unwrap();
    assert_eq!(describe(&parsed), describe(&built));
}

fn build_composite_exit_fsm() -> Result<UmlFsm, Error> {
    let mut builder = UmlFsmBuilder::new("CompositeExit");
    builder.add_transition(TransitionParameters::Enter { target: "Working" });
    let working = builder.add_state("Working");
    builder.add_exit_action("Working", Action::from("Cleanup"));
    builder.add_transition(TransitionParameters::Final {
        source: "Working",
        event: Some(Event("Shutdown".into())),
        action: Some(Action("Goodbye".into())),
        guard: None,
    });
    builder.set_scope(Some(working));
    builder.add_transition(TransitionParameters::Enter { target: "Busy" });
    builder.add_transition(event("Busy", "Idle", "Pause", None, None));
    builder.add_transition(event("Idle", "Busy", "Resume", None, None));
    builder.build()
}

const COMPOSITE_EXIT: &str = "\
@startuml CompositeExit
[*] --> Working
state Working {
    [*] --> Busy
    Busy --> Idle : Pause
    Idle --> Busy : Resume
}
Working : exit / Cleanup
Working --> [*] : Shutdown / Goodbye
@enduml
";

#[test]
fn parses_composite_exit() {
    let parsed = UmlFsm::try_parse(COMPOSITE_EXIT).unwrap();
    let built = build_composite_exit_fsm().unwrap();
    assert_eq!(describe(&parsed), describe(&built));
    assert_eq!(parsed.enter_state().name(), "Busy");
}

fn build_substate_exit_fsm() -> Result<UmlFsm, Error> {
    let mut builder = UmlFsmBuilder::new("SubstateExit");
    builder.add_transition(TransitionParameters::Enter { target: "Working" });
    let working = builder.add_state("Working");
    builder.set_scope(Some(working));
    builder.add_transition(TransitionParameters::Enter { target: "Busy" });
    builder.add_transition(event("Busy", "Idle", "Pause", None, None));
    builder.add_transition(TransitionParameters::Final {
        source: "Idle",
        event: Some(Event("Finish".into())),
        action: None,
        guard: None,
    });
    builder.set_scope(None);
    builder.add_transition(TransitionParameters::Direct { source: "Working", target: "Done", action: None, guard: None });
    builder.add_transition(TransitionParameters::Final {
        source: "Done",
        event: Some(Event("Shutdown".into())),
        action: None,
        guard: None,
    });
    builder.build()
}

const SUBSTATE_EXIT: &str = "\
@startuml SubstateExit
[*] --> Working
state Working {
    [*] --> Busy
    Busy --> Idle : Pause
    Idle --> [*] : Finish
}
Working --> Done
Done --> [*] : Shutdown
@enduml
";

#[test]
fn substate_exit_hands_off_to_the_completion() {
    let parsed = UmlFsm::try_parse(SUBSTATE_EXIT).unwrap();
    let built = build_substate_exit_fsm().unwrap();
    assert_eq!(describe(&parsed), describe(&built));
    let lines = describe(&parsed);
    assert!(lines.contains(&"Working::Idle event from=Working::Idle on=Some(\"Finish\") [None] / None to=Some(\"Done\")".to_string()));
    assert!(!lines.iter().any(|l| l.starts_with("Working direct")));
    assert!(lines.contains(&"Done final from=Done on=Some(\"Shutdown\") [None] / None to=None".to_string()));
}

fn build_guarded_completion_fsm() -> Result<UmlFsm, Error> {
    let mut builder = UmlFsmBuilder::new("GuardedCompletion");
    builder.add_transition(TransitionParameters::Enter { target: "Working" });
    let working = builder.add_state("Working");
    builder.set_scope(Some(working));
    builder.add_transition(TransitionParameters::Enter { target: "Busy" });
    builder.add_transition(event("Busy", "Idle", "Pause", None, None));
    builder.add_transition(TransitionParameters::Final {
        source: "Idle",
        event: Some(Event("Finish".into())),
        action: None,
        guard: None,
    });
    builder.set_scope(None);
    builder.add_transition(TransitionParameters::Direct {
        source: "Working",
        target: "Recharge",
        action: Some(Action::from("Cleanup")),
        guard: Some(Action::from("LowBattery")),
    });
    builder.add_transition(TransitionParameters::Direct {
        source: "Working",
        target: "Done",
        action: None,
        guard: Some(Action::from("Ok")),
    });
    builder.add_transition(TransitionParameters::Final {
        source: "Done",
        event: Some(Event("Shutdown".into())),
        action: None,
        guard: None,
    });
    builder.build()
}

const GUARDED_COMPLETION: &str = "\
@startuml GuardedCompletion
[*] --> Working
state Working {
    [*] --> Busy
    Busy --> Idle : Pause
    Idle --> [*] : Finish
}
Working --> Recharge : [LowBattery] / Cleanup
Working --> Done : [Ok]
Done --> [*] : Shutdown
@enduml
";

#[test]
fn substate_exit_fans_out_over_guarded_completions() {
    let parsed = UmlFsm::try_parse(GUARDED_COMPLETION).unwrap();
    let built = build_guarded_completion_fsm().unwrap();
    assert_eq!(describe(&parsed), describe(&built));
    let lines = describe(&parsed);
    assert!(lines.contains(
        &"Working::Idle event from=Working::Idle on=Some(\"Finish\") [Some(\"LowBattery\")] / Some(\"Cleanup\") to=Some(\"Recharge\")"
            .to_string()
    ));
    assert!(lines.contains(
        &"Working::Idle event from=Working::Idle on=Some(\"Finish\") [Some(\"Ok\")] / None to=Some(\"Done\")".to_string()
    ));
}

fn build_submachine_fsm() -> Result<UmlFsm, Error> {
    let mut builder = UmlFsmBuilder::new("Submachine");
    let active = builder.add_state("Active");
    builder.set_scope(Some(active));
    let working = builder.add_state("Working");
    builder.add_transition(TransitionParameters::Enter { target: "Working" });
    builder.set_scope(Some(working));
    builder.add_transition(TransitionParameters::Enter { target: "Running" });
    builder.add_transition(event("Running", "Complete", "Finish", Some("HandleFinish"), None));
    builder.set_scope(None);
    builder.add_transition(TransitionParameters::Enter { target: "Idle" });
    builder.add_transition(event("Idle", "Active", "Start", None, None));
    builder.add_transition(event("Active", "Idle", "Stop", None, None));
    builder.build()
}

const ROOT: &str = "\
@startuml Submachine
[*] --> Idle
Idle --> Active : Start
Active --> Idle : Stop
state Active : Worker
@enduml
";

const WORKER: &str = "\
@startuml Worker
[*] --> Working
state Working : Task
@enduml
";

const TASK: &str = "\
@startuml Task
[*] --> Running
Running --> Complete : Finish / HandleFinish
@enduml
";

#[test]
fn parses_fsm_with_subs() {
    let parsed = UmlFsm::try_parse_with_subs(ROOT, &[WORKER, TASK]).unwrap();
    let built = build_submachine_fsm().unwrap();
    assert_eq!(describe(&parsed), describe(&built));
    let active = parsed.states().into_iter().find(|s| s.name() == "Active").unwrap();
    assert_eq!(active.enter_state().qualified_name("::"), "Active::Working::Running");
}

#[test]
fn unresolved_reference_is_a_plain_description() {
    // Without the sub-FSMs, `Active : Worker` reads as an internal transition on `Worker`.
    let parsed = UmlFsm::try_parse(ROOT).unwrap();
    let lines = describe(&parsed);
    assert!(lines.contains(&"Active internal from=Active on=Some(\"Worker\") [None] / None to=None".to_string()));
}

#[test]
fn cyclic_sub_fsms_are_rejected() {
    let a = "@startuml A\nstate X : B\n[*] --> X\n@enduml\n";
    let b = "@startuml B\nstate Y : A\n[*] --> Y\n@enduml\n";
    let root = "@startuml Root\nstate Top : A\n[*] --> Top\n@enduml\n";
    let err = UmlFsm::try_parse_with_subs(root, &[a, b]).unwrap_err();
    assert_eq!(err, Error::Parse(ParseError::CyclicSubMachine("A".to_string())));
}

#[test]
fn duplicate_sub_fsm_names_are_rejected() {
    let err = UmlFsm::try_parse_with_subs(ROOT, &[WORKER, WORKER]).unwrap_err();
    assert_eq!(err, Error::Parse(ParseError::DuplicateSubMachine("Worker".to_string())));
}

#[test]
fn unnamed_sub_fsm_is_rejected() {
    let err = UmlFsm::try_parse_with_subs(ROOT, &["@startuml\n[*] --> A\n@enduml\n"]).unwrap_err();
    assert_eq!(err, Error::Parse(ParseError::UnnamedSubMachine));
}

#[test]
fn deferred_events_are_inherited_unless_handled() {
    let text = "\
@startuml Deferred
[*] --> Outer
state Outer {
    [*] --> Inner
    Inner --> Other : Go
    Other : Go / defer
}
Outer : Ping / defer
Outer : Go / defer
Outer --> Done : Stop
@enduml
";
    let fsm = UmlFsm::try_parse(text).unwrap();
    let deferred = |name: &str| -> Vec<String> {
        let s = fsm.states().into_iter().find(|s| s.name() == name).unwrap();
        s.deferred_events().iter().map(|e| e.0.clone()).collect()
    };
    assert_eq!(deferred("Outer"), vec!["Ping".to_string(), "Go".to_string()]);
    assert_eq!(deferred("Inner"), vec!["Ping".to_string()]);
    assert_eq!(deferred("Other"), vec!["Go".to_string(), "Ping".to_string()]);
}

#[test]
fn empty_input_is_rejected() {
    assert_eq!(UmlFsm::try_parse("").unwrap_err(), Error::Parse(ParseError::EmptyInput));
    assert_eq!(UmlFsm::try_parse("\n   \n' just a comment\n").unwrap_err(), Error::Parse(ParseError::EmptyInput));
}

#[test]
fn missing_end_is_rejected() {
    let err = UmlFsm::try_parse("@startuml X\n[*] --> A\n").unwrap_err();
    assert_eq!(err, Error::Parse(ParseError::Grammar("missing @enduml".to_string())));
}

#[test]
fn unknown_line_is_a_grammar_error() {
    let err = UmlFsm::try_parse("@startuml X\n[*] --> A\nwhat is this\n@enduml\n").unwrap_err();
    assert_eq!(err, Error::Parse(ParseError::Grammar("what is this".to_string())));
    assert_eq!(err.to_string(), "Parse error: PlantUML grammar error: what is this");
}

#[test]
fn unbalanced_braces_are_grammar_errors() {
    let err = UmlFsm::try_parse("@startuml X\n}\n@enduml\n").unwrap_err();
    assert_eq!(err, Error::Parse(ParseError::Grammar("}".to_string())));
    let err = UmlFsm::try_parse("@startuml X\nstate A {\n@enduml\n").unwrap_err();
    assert_eq!(err, Error::Parse(ParseError::Grammar("@enduml".to_string())));
}

#[test]
fn missing_names_are_reported() {
    let cases = [
        ("@startuml X\n --> B\n@enduml\n", ParseError::MissingSourceState),
        ("@startuml X\nA --> \n@enduml\n", ParseError::MissingDestinationState),
        ("@startuml X\n[*] --> \n@enduml\n", ParseError::MissingDestinationState),
        ("@startuml X\nstate {\n}\n@enduml\n", ParseError::MissingCompositeStateName),
        ("@startuml X\n : entry / A\n@enduml\n", ParseError::MissingStateName),
        ("@startuml X\nA : \n@enduml\n", ParseError::MissingDescription),
    ];
    for (text, expected) in cases {
        assert_eq!(UmlFsm::try_parse(text).unwrap_err(), Error::Parse(expected), "{text}");
    }
}

#[test]
fn bad_transition_labels_are_reported() {
    let cases = [
        ("A --> B : Go /", ParseError::MissingActionName),
        ("A --> B : Go, , Stop", ParseError::MissingEventName),
        ("A --> B : Go [guard", ParseError::InvalidTransitionDescription("Go [guard".to_string())),
        ("A --> B : []", ParseError::InvalidTransitionDescription("[]".to_string())),
    ];
    for (line, expected) in cases {
        let text = format!("@startuml X\n[*] --> A\n{line}\n@enduml\n");
        assert_eq!(UmlFsm::try_parse(&text).unwrap_err(), Error::Parse(expected), "{line}");
    }
}

#[test]
fn unreadable_descriptions_are_skipped() {
    let text = "@startuml X\n[*] --> A\nA : entry\nA : [only a guard]\n@enduml\n";
    let fsm = UmlFsm::try_parse(text).unwrap();
    assert_eq!(fsm.state_count(), 1);
    assert!(fsm.enter_state().enter_action().is_none());
    assert!(fsm.enter_state().transitions().is_empty());
}

#[test]
fn unnamed_diagram_fails_to_build() {
    let err = UmlFsm::try_parse("@startuml\n[*] --> A\n@enduml\n").unwrap_err();
    assert_eq!(err, Error::Build(BuildError::EmptyName));
}

#[test]
fn diagram_elements_record_their_region() {
    let d = StateDiagram::parse(COMPOSITE_EXIT).unwrap();
    assert_eq!(d.name(), Some("CompositeExit"));
    let items = &d.elements().items;
    assert!(matches!(&items[0], Element::Enter { scope: None, name } if name == "Working"));
    assert!(matches!(&items[1], Element::Composite { parent: None, name } if name == "Working"));
    assert!(matches!(&items[2], Element::Enter { scope: Some(1), name } if name == "Busy"));
    assert!(matches!(&items[3], Element::Transition { scope: Some(1), description: Some(d), .. } if d == "Pause"));
    assert!(matches!(&items[5], Element::Description { scope: None, .. }));
    assert!(matches!(&items[6], Element::Exit { scope: None, description: Some(d), .. } if d == "Shutdown / Goodbye"));
}

fn build_four_seasons_fsm() -> Result<UmlFsm, Error> {
    let mut builder = UmlFsmBuilder::new("PlantFsm");

    // Root level states
    builder.add_transition(TransitionParameters::Enter { target: "Winter" });
    let winter = builder.add_state("Winter");
    builder.add_enter_action("Winter", Action::from("WinterIsComing"));
    let spring = builder.add_state("Spring");
    let summer = builder.add_state("Summer");
    let autumn = builder.add_state("Autumn");

    // Root level transitions
    builder.add_transition(event("Winter", "Spring", "TimeAdvances", None, Some("EnoughTimePassed")));
    builder.add_transition(event("Spring", "Summer", "TimeAdvances", Some("StartBlooming"), Some("EnoughTimePassed")));
    builder.add_transition(event("Summer", "Autumn", "TimeAdvances", Some("RipenFruit"), Some("EnoughTimePassed")));
    builder.add_transition(event("Autumn", "Winter", "TimeAdvances", Some("DropPetals"), Some("EnoughTimePassed")));

    // Winter substates
    builder.set_scope(Some(winter));
    builder.add_transition(TransitionParameters::Enter { target: "Freezing" });
    builder.add_state("Mild");
    builder.add_transition(event("Freezing", "Mild", "TemperatureRises", None, None));
    builder.add_transition(event("Mild", "Freezing", "TemperatureDrops", None, None));
    builder.add_transition(TransitionParameters::Direct {
        source: "Freezing",
        target: "ArcticBlast",
        action: Some(Action("StartBlizzard".into())),
        guard: Some(Action("HasVeryColdWeather".into())),
    });
    builder.add_deferred_event("ArcticBlast", Event::from("TemperatureRises"));

    // Spring substates
    builder.set_scope(Some(spring));
    builder.add_transition(TransitionParameters::Enter { target: "Brisk" });
    builder.add_state("Temperate");
    builder.add_transition(event("Brisk", "Temperate", "TemperatureRises", None, None));
    builder.add_transition(event("Temperate", "Brisk", "TemperatureDrops", None, None));

    // Summer substates
    builder.set_scope(Some(summer));
    builder.add_transition(TransitionParameters::Enter { target: "Balmy" });
    builder.add_state("Scorching");
    builder.add_enter_action("Scorching", Action::from("StartHeatWave"));
    builder.add_exit_action("Scorching", Action::from("EndHeatWave"));
    builder.add_transition(TransitionParameters::Internal {
        source: "Scorching",
        event: Event("TemperatureRises".into()),
        action: Some(Action("SpontaneousCombustion".into())),
        guard: None,
    });
    builder.add_transition(event("Balmy", "Scorching", "TemperatureRises", None, None));
    builder.add_transition(event("Scorching", "Balmy", "TemperatureDrops", None, None));

    // Autumn substates
    builder.set_scope(Some(autumn));
    builder.add_transition(TransitionParameters::Enter { target: "Crisp" });
    builder.add_state("Pleasant");
    builder.add_transition(event("Crisp", "Pleasant", "TemperatureRises", None, None));
    builder.add_transition(event("Pleasant", "Crisp", "TemperatureDrops", None, None));

    builder.build()
}

const FOUR_SEASONS: &str = "\
@startuml PlantFsm
[*] --> Winter
state Winter {
    [*] --> Freezing
    state Mild
    Freezing --> Mild : TemperatureRises
    Mild --> Freezing : TemperatureDrops
    Freezing --> ArcticBlast : [HasVeryColdWeather] / StartBlizzard
    ArcticBlast : TemperatureRises / defer
}
state Spring {
    [*] --> Brisk
    state Temperate
    Brisk --> Temperate : TemperatureRises
    Temperate --> Brisk : TemperatureDrops
}
state Summer {
    [*] --> Balmy
    state Scorching
    Scorching : entry / StartHeatWave
    Scorching : exit / EndHeatWave
    Scorching : TemperatureRises / SpontaneousCombustion
    Balmy --> Scorching : TemperatureRises
    Scorching --> Balmy : TemperatureDrops
}
state Autumn {
    [*] --> Crisp
    state Pleasant
    Crisp --> Pleasant : TemperatureRises
    Pleasant --> Crisp : TemperatureDrops
}
Winter : entry / WinterIsComing
Winter --> Spring : TimeAdvances [EnoughTimePassed]
Spring --> Summer : TimeAdvances [EnoughTimePassed] / StartBlooming
Summer --> Autumn : TimeAdvances [EnoughTimePassed] / RipenFruit
Autumn --> Winter : TimeAdvances [EnoughTimePassed] / DropPetals
@enduml
";

#[test]
fn parses_four_seasons() {
    let parsed = UmlFsm::try_parse(FOUR_SEASONS).unwrap();
    let built = build_four_seasons_fsm().unwrap();
    assert_eq!(describe(&parsed), describe(&built));
    assert_eq!(parsed.state_count(), 13);
    assert_eq!(parsed.enter_state().qualified_name("::"), "Winter::Freezing");
}

fn build_enter_exit_fsm() -> Result<UmlFsm, Error> {
    let mut builder = UmlFsmBuilder::new("EnterExitActions");
    builder.add_transition(TransitionParameters::Enter { target: "StateA" });
    builder.add_enter_action("StateA", Action::from("EnterStateA"));
    builder.add_exit_action("StateA", Action::from("ExitStateA"));
    builder.add_state("StateB");
    builder.add_transition(event("StateA", "StateA", "GoToAFromA", None, None));
    builder.add_transition(event("StateA", "StateB", "GoToB", None, None));
    builder.add_transition(event("StateB", "StateA", "GoToAFromB", None, None));
    let state_c = builder.add_state("StateC");
    builder.add_enter_action("StateC", Action::from("EnterStateC"));
    builder.add_exit_action("StateC", Action::from("ExitStateC"));
    builder.set_scope(Some(state_c));
    builder.add_transition(TransitionParameters::Enter { target: "StateCA" });
    builder.add_enter_action("StateCA", Action::from("EnterStateCA"));
    builder.add_exit_action("StateCA", Action::from("ExitStateCA"));
    builder.add_state("StateCB");
    builder.add_transition(event("StateCA", "StateCB", "GoToCB", None, None));
    builder.set_scope(None);
    builder.add_transition(event("StateA", "StateC", "GoToC", None, None));
    builder.add_transition(event("StateA", "StateCA", "GoToCAFromA", None, None));
    builder.add_transition(event("StateA", "StateCB", "GoToCBFromA", None, None));
    builder.add_transition(event("StateC", "StateA", "GoToAFromC", None, None));
    builder.build()
}

const ENTER_EXIT: &str = "\
@startuml EnterExitActions
[*] --> StateA
state StateB
state StateC {
    [*] --> StateCA
    state StateCB
    StateCA --> StateCB : GoToCB
    StateCA : entry / EnterStateCA
    StateCA : exit / ExitStateCA
}
StateA : entry / EnterStateA
StateA : exit / ExitStateA
StateC : entry / EnterStateC
StateC : exit / ExitStateC
StateA --> StateA : GoToAFromA
StateA --> StateB : GoToB
StateB --> StateA : GoToAFromB
StateA --> StateC : GoToC
StateA --> StateCA : GoToCAFromA
StateA --> StateCB : GoToCBFromA
StateC --> StateA : GoToAFromC
@enduml
";

#[test]
fn parses_enter_and_exit_actions() {
    let parsed = UmlFsm::try_parse(ENTER_EXIT).unwrap();
    let built = build_enter_exit_fsm().unwrap();
    assert_eq!(describe(&parsed), describe(&built));
}

fn build_actions_fsm() -> Result<UmlFsm, Error> {
    let mut builder = UmlFsmBuilder::new("TestFsm");
    builder.add_transition(TransitionParameters::Enter { target: "StateA" });
    builder.add_transition(event("StateA", "StateB", "GoToB", Some("HandleGoToB"), None));
    builder.add_transition(event("StateB", "StateA", "GoToA", Some("HandleGoToA"), None));
    builder.build()
}

const ACTIONS: &str = "\
@startuml TestFsm
[*] --> StateA
StateA --> StateB : GoToB / HandleGoToB
StateB --> StateA : GoToA / HandleGoToA
@enduml
";

#[test]
fn parses_actions() {
    let parsed = UmlFsm::try_parse(ACTIONS).unwrap();
    let built = build_actions_fsm().unwrap();
    assert_eq!(describe(&parsed), describe(&built));
}

fn build_composite_states_fsm() -> Result<UmlFsm, Error> {
    let mut builder = UmlFsmBuilder::new("Composite States");
    let state_a = builder.add_enter_state("StateA");
    builder.add_state("StateB");
    builder.add_transition(event("StateA", "StateB", "GoToB", Some("HandleGoToB"), None));
    builder.set_scope(Some(state_a));
    let state_aa = builder.add_enter_state("StateAA");
    builder.add_state("StateAB");
    builder.add_transition(event("StateAA", "StateAB", "GoToAB", Some("HandleGoToAB"), None));
    builder.set_scope(Some(state_aa));
    builder.add_enter_state("StateAAA");
    builder.add_state("StateAAB");
    builder.add_transition(event("StateAAA", "StateAAB", "GoToAAB", Some("HandleGoToAAB"), None));
    builder.build()
}

const COMPOSITE_STATES: &str = "\
@startuml Composite States
[*] --> StateA
state StateA {
  [*] --> StateAA
  state StateAA {
    [*] --> StateAAA
    StateAAA --> StateAAB : GoToAAB / HandleGoToAAB
  }
  StateAA --> StateAB : GoToAB / HandleGoToAB
}
StateA --> StateB : GoToB / HandleGoToB
@enduml
";

#[test]
fn parses_composite_states() {
    let parsed = UmlFsm::try_parse(COMPOSITE_STATES).unwrap();
    let built = build_composite_states_fsm().unwrap();
    assert_eq!(describe(&parsed), describe(&built));
    assert_eq!(parsed.enter_state().qualified_name("::"), "StateA::StateAA::StateAAA");
}

fn build_same_name_substates_fsm() -> Result<UmlFsm, Error> {
    let mut builder = UmlFsmBuilder::new("Same Name Substates");
    let parent_a = builder.add_enter_state("ParentA");
    let parent_b = builder.add_state("ParentB");
    builder.add_transition(event("ParentA", "ParentB", "GoToParentB", None, None));
    builder.set_scope(Some(parent_a));
    builder.add_enter_state("Inner");
    builder.add_state("Other");
    builder.add_transition(event("Inner", "Other", "GoToOther", None, None));
    builder.set_scope(Some(parent_b));
    builder.add_enter_state("Inner");
    builder.add_state("Other");
    builder.add_transition(event("Inner", "Other", "GoToOther", None, None));
    builder.build()
}

const SAME_NAME_SUBSTATES: &str = "\
@startuml Same Name Substates
[*] --> ParentA
state ParentA {
  [*] --> Inner
  Inner --> Other : GoToOther
}
state ParentB {
  [*] --> Inner
  Inner --> Other : GoToOther
}
ParentA --> ParentB : GoToParentB
@enduml
";

#[test]
fn parses_same_name_substates() {
    let parsed = UmlFsm::try_parse(SAME_NAME_SUBSTATES).unwrap();
    let built = build_same_name_substates_fsm().unwrap();
    assert_eq!(describe(&parsed), describe(&built));
    assert_eq!(parsed.state_count(), 6);
}

fn build_substate_to_substate_fsm() -> Result<UmlFsm, Error> {
    let mut builder = UmlFsmBuilder::new("Substate To Substate");
    let state_a = builder.add_enter_state("StateA");
    let state_b = builder.add_state("StateB");
    builder.set_scope(Some(state_a));
    builder.add_enter_state("StateAA");
    builder.set_scope(Some(state_b));
    builder.add_state("StateBA");
    builder.add_state("StateBB");
    builder.add_transition(event("StateBA", "StateBB", "GoToBB", Some("HandleGoToBB"), None));
    builder.set_scope(None);
    builder.add_transition(event("StateAA", "StateBA", "GoToBA", Some("HandleGoToBA"), None));
    builder.build()
}

const SUBSTATE_TO_SUBSTATE: &str = "\
@startuml Substate To Substate
[*] --> StateA
state StateA {
  [*] --> StateAA
}
state StateB {
  StateBA --> StateBB : GoToBB / HandleGoToBB
}
StateAA --> StateBA : GoToBA / HandleGoToBA
@enduml
";

#[test]
fn parses_substate_to_substate() {
    let parsed = UmlFsm::try_parse(SUBSTATE_TO_SUBSTATE).unwrap();
    let built = build_substate_to_substate_fsm().unwrap();
    assert_eq!(describe(&parsed), describe(&built));
    assert_eq!(parsed.state_count(), 5);
}

fn build_completion_exit_fsm() -> Result<UmlFsm, Error> {
    let mut builder = UmlFsmBuilder::new("CompletionExit");
    builder.add_transition(TransitionParameters::Enter { target: "Active" });
    builder.add_transition(event("Active", "Done", "Finish", None, None));
    builder.add_exit_action("Done", Action::from("Cleanup"));
    builder.add_transition(TransitionParameters::Final { source: "Done", event: None, action: None, guard: None });
    builder.build()
}

const COMPLETION_EXIT: &str = "\
@startuml CompletionExit
[*] --> Active
Active --> Done : Finish
Done : exit / Cleanup
Done --> [*]
@enduml
";

#[test]
fn parses_completion_exit() {
    let parsed = UmlFsm::try_parse(COMPLETION_EXIT).unwrap();
    let built = build_completion_exit_fsm().unwrap();
    assert_eq!(describe(&parsed), describe(&built));
}

fn build_internal_names_fsm() -> Result<UmlFsm, Error> {
    let mut builder = UmlFsmBuilder::new("InternalNames");
    builder.add_transition(TransitionParameters::Enter { target: "StateA" });
    builder.add_transition(event("StateA", "StateB", "TriggerEvent", None, None));
    builder.add_transition(event("StateA", "StateB", "ChangeState", None, None));
    builder.add_transition(event("StateA", "StateB", "Start", None, None));
    builder.build()
}

const INTERNAL_NAMES: &str = "\
@startuml InternalNames
[*] --> StateA
StateA --> StateB : TriggerEvent
StateA --> StateB : ChangeState
StateA --> StateB : Start
@enduml
";

#[test]
fn parses_internal_names() {
    let parsed = UmlFsm::try_parse(INTERNAL_NAMES).unwrap();
    let built = build_internal_names_fsm().unwrap();
    assert_eq!(describe(&parsed), describe(&built));
}

fn build_guards_fsm() -> Result<UmlFsm, Error> {
    let mut builder = UmlFsmBuilder::new("Guards");
    builder.add_transition(TransitionParameters::Enter { target: "StateA" });
    builder.add_transition(event("StateA", "StateA", "ChangeState", Some("ActionToA"), Some("AGuard")));
    builder.add_transition(event("StateA", "StateB", "ChangeState", Some("ActionToB"), Some("BGuard")));
    builder.add_transition(event("StateA", "StateC", "ChangeState", Some("ActionToC"), Some("CGuard")));
    let state_c = builder.add_state("StateC");
    builder.set_scope(Some(state_c));
    builder.add_transition(event("StateC", "StateCA", "ChangeState", Some("ActionToCA"), Some("CAGuard")));
    builder.add_transition(event("StateC", "StateCB", "ChangeState", Some("ActionToCB"), Some("CBGuard")));
    builder.build()
}

const GUARDS: &str = "\
@startuml Guards
[*] --> StateA
StateA --> StateA : ChangeState [AGuard] / ActionToA
StateA --> StateB : ChangeState [BGuard] / ActionToB
StateA --> StateC : ChangeState [CGuard] / ActionToC
state StateC {
  StateC --> StateCA : ChangeState [CAGuard] / ActionToCA
  StateC --> StateCB : ChangeState [CBGuard] / ActionToCB
}
@enduml
";

#[test]
fn parses_guards() {
    let parsed = UmlFsm::try_parse(GUARDS).unwrap();
    let built = build_guards_fsm().unwrap();
    assert_eq!(describe(&parsed), describe(&built));
}
