use phyto_fsm::builder::UmlFsmBuilder;
use phyto_fsm::fsm::{State, UmlFsm};
use phyto_fsm::model::TransitionParameters;

#[test]
fn add_state_creates_simple_state() {
    let mut builder = UmlFsmBuilder::new("TestFSM");
    builder.add_transition(TransitionParameters::Enter { target: "Start" });
    builder.add_state("State1");
    let fsm = builder.build().unwrap();

    assert_eq!(fsm.states().len(), 2);
    let state1 = find_state(&fsm, "State1");
    assert!(!state1.is_enter());
}

#[test]
fn add_state_reuses_existing() {
    let mut builder = UmlFsmBuilder::new("TestFSM");
    builder.add_transition(TransitionParameters::Enter { target: "A" });
    builder.add_transition(TransitionParameters::Event {
        source: "A",
        target: "B",
        event: "E1".into(),
        action: None,
        guard: None,
    });
    builder.add_state("B");
    let fsm = builder.build().unwrap();

    assert_eq!(fsm.states().len(), 2);
}

#[test]
fn enter_state_not_overwritten_by_simple() {
    let mut builder = UmlFsmBuilder::new("TestFSM");
    builder.add_transition(TransitionParameters::Enter { target: "Start" });
    builder.add_state("Start");
    let fsm = builder.build().unwrap();

    let start = find_state(&fsm, "Start");
    assert!(start.is_enter());
}

#[test]
fn simple_state_upgraded_to_enter() {
    let mut builder = UmlFsmBuilder::new("TestFSM");
    builder.add_transition(TransitionParameters::Event {
        source: "Start",
        target: "B",
        event: "E1".into(),
        action: None,
        guard: None,
    });
    builder.add_transition(TransitionParameters::Enter { target: "Start" });
    let fsm = builder.build().unwrap();

    let start = find_state(&fsm, "Start");
    assert!(start.is_enter());
}

fn find_state<'a>(fsm: &'a UmlFsm, name: &str) -> State<'a> {
    fsm.states().into_iter().find(|s| s.name() == name).unwrap()
}

#[test]
fn second_exit_action_replaces_the_first() {
    let mut builder = UmlFsmBuilder::new("TestFSM");
    builder.add_transition(TransitionParameters::Enter { target: "A" });
    builder.add_exit_action("A", phyto_fsm::types::Action::named("First"));
    builder.add_exit_action("A", phyto_fsm::types::Action::named("Second"));
    builder.add_exit_action("Missing", phyto_fsm::types::Action::named("Ignored"));
    let fsm = builder.build().unwrap();

    assert_eq!(fsm.states().len(), 1);
    let a = find_state(&fsm, "A");
    assert_eq!(a.exit_action().map(|x| x.0.as_str()), Some("Second"));
    assert_eq!(a.enter_action(), None);
}

#[test]
fn direct_transitions_are_the_eventless_moves() {
    let mut builder = UmlFsmBuilder::new("TestFSM");
    builder.add_transition(TransitionParameters::Enter { target: "A" });
    builder.add_transition(TransitionParameters::Direct {
        source: "A",
        target: "B",
        action: None,
        guard: Some(phyto_fsm::types::Action::named("Ready")),
    });
    builder.add_transition(TransitionParameters::Event {
        source: "A",
        target: "B",
        event: phyto_fsm::types::Event::named("Go"),
        action: None,
        guard: None,
    });
    builder.add_transition(TransitionParameters::Final { source: "A", event: None, action: None, guard: None });
    let fsm = builder.build().unwrap();

    let a = find_state(&fsm, "A");
    let moves = a.direct_transitions();
    assert_eq!(moves.len(), 2);
    assert_eq!(moves[0].destination().map(|s| s.name()), Some("B"));
    assert!(moves[1].destination().is_none());
    assert!(!phyto_fsm::fsm::all_guarded(&moves));
    assert!(phyto_fsm::fsm::all_guarded(&moves[..1].to_vec()));
}
