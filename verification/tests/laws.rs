use phyto_fsm::builder::UmlFsmBuilder;
use phyto_fsm::fsm::UmlFsm;
use phyto_fsm::model::{TransitionKind, TransitionParameters};

#[test]
fn initial_state_twice_is_once() {
    let mut once = UmlFsmBuilder::new("Fsm");
    once.add_transition(TransitionParameters::Enter { target: "Start" });
    let mut twice = UmlFsmBuilder::new("Fsm");
    twice.add_transition(TransitionParameters::Enter { target: "Start" });
    twice.add_transition(TransitionParameters::Enter { target: "Start" });
    let once = once.build().unwrap();
    let twice = twice.build().unwrap();
    assert_eq!(once.state_count(), twice.state_count());
    assert_eq!(
        once.enter_state().transitions().len(),
        twice.enter_state().transitions().len()
    );
    assert!(twice.enter_state().is_enter());
}

#[test]
fn built_fsm_keeps_every_state() {
    let mut builder = UmlFsmBuilder::new("Fsm");
    builder.add_transition(TransitionParameters::Enter { target: "A" });
    let a = builder.add_state("A");
    builder.set_scope(Some(a));
    builder.add_transition(TransitionParameters::Enter { target: "A1" });
    builder.add_state("A2");
    builder.set_scope(None);
    builder.add_state("B");
    let fsm = builder.build().unwrap();
    let names: Vec<String> = fsm.states().iter().map(|s| s.qualified_name("/")).collect();
    assert_eq!(names, vec!["A", "A/A1", "A/A2", "B"]);
}

#[test]
fn every_state_knows_the_state_it_enters() {
    let text = "\
@startuml Nested
[*] --> A
state A {
    [*] --> B
    state B {
        [*] --> C
    }
    D --> B : Go
}
@enduml
";
    let fsm = UmlFsm::try_parse(text).unwrap();
    for s in fsm.states() {
        let expected = match s.name() {
            "A" | "B" | "C" => "C",
            other => other,
        };
        assert_eq!(s.enter_state().name(), expected);
    }
    assert_eq!(fsm.enter_state().name(), "C");
}

#[test]
fn substates_of_a_built_fsm_never_exit_to_final() {
    let text = "\
@startuml Handoff
[*] --> Working
state Working {
    [*] --> Busy
    Busy --> [*]
}
Working --> Done
Done --> [*]
@enduml
";
    let fsm = UmlFsm::try_parse(text).unwrap();
    for s in fsm.states() {
        let has_final = s.transitions().iter().any(|t| matches!(t, TransitionKind::Final { .. }));
        assert_eq!(has_final, s.parent().is_none() && s.name() == "Done", "{}", s.name());
    }
}

#[test]
fn deferred_events_hold_no_duplicates_nor_handled_events() {
    let text = "\
@startuml Defer
[*] --> P
state P {
    [*] --> C
    C : X / defer
    C : Y / defer
    C --> C : Y
}
P : X / defer
P : Z / defer
@enduml
";
    let fsm = UmlFsm::try_parse(text).unwrap();
    let c = fsm.states().into_iter().find(|s| s.name() == "C").unwrap();
    let deferred: Vec<String> = c.deferred_events().iter().map(|e| e.0.clone()).collect();
    assert_eq!(deferred, vec!["X".to_string(), "Z".to_string()]);
}
