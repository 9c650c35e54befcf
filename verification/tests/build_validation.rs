use phyto_fsm::builder::UmlFsmBuilder;
use phyto_fsm::error::{BuildError, Error};
use phyto_fsm::model::TransitionParameters;

#[test]
fn build_without_enter_state_fails() {
    let builder = UmlFsmBuilder::new("TestFSM");
    let result = builder.build();
    assert!(result.is_err());
}

#[test]
fn build_with_multiple_enter_states_fails() {
    let mut builder = UmlFsmBuilder::new("TestFSM");
    builder.add_transition(TransitionParameters::Enter { target: "Start" });
    builder.add_transition(TransitionParameters::Enter {
        target: "AnotherStart",
    });
    let result = builder.build();
    assert!(result.is_err());
}

#[test]
fn build_with_empty_name_fails() {
    let mut builder = UmlFsmBuilder::new("  ");
    builder.add_transition(TransitionParameters::Enter { target: "Start" });
    let result = builder.build();
    assert!(result.is_err());
}

#[test]
fn build_with_duplicate_events_per_action_fails() {
    let mut builder = UmlFsmBuilder::new("TestFSM");
    builder.add_transition(TransitionParameters::Enter { target: "Start" });
    builder.add_transition(TransitionParameters::Event {
        source: "Start",
        target: "End",
        event: "EventA".into(),
        action: Some("DuplicateAction".into()),
        guard: None,
    });
    builder.add_transition(TransitionParameters::Event {
        source: "Start",
        target: "End",
        event: "EventB".into(),
        action: Some("DuplicateAction".into()),
        guard: None,
    });
    let result = builder.build();
    assert!(result.is_err());
}

#[test]
fn build_with_conflicting_transitions_fails() {
    let mut builder = UmlFsmBuilder::new("TestFSM");
    builder.add_transition(TransitionParameters::Enter { target: "A" });
    builder.add_transition(TransitionParameters::Event {
        source: "A",
        target: "B",
        event: "EventA".into(),
        action: None,
        guard: None,
    });
    builder.add_transition(TransitionParameters::Event {
        source: "A",
        target: "C",
        event: "EventA".into(),
        action: None,
        guard: None,
    });
    let result = builder.build();
    assert!(result.is_err());
}

#[test]
fn build_with_guarded_conflicting_transitions_succeeds() {
    let mut builder = UmlFsmBuilder::new("TestFSM");
    builder.add_transition(TransitionParameters::Enter { target: "A" });
    builder.add_transition(TransitionParameters::Event {
        source: "A",
        target: "B",
        event: "EventA".into(),
        action: None,
        guard: Some("GuardOne".into()),
    });
    builder.add_transition(TransitionParameters::Event {
        source: "A",
        target: "C",
        event: "EventA".into(),
        action: None,
        guard: Some("GuardTwo".into()),
    });
    let result = builder.build();
    assert!(result.is_ok());
}

#[test]
fn build_with_guarded_and_unguarded_default_succeeds() {
    // A guarded transition plus one unguarded "else" branch is deterministic: the guard is tried
    // first, the default catches the rest.
    let mut builder = UmlFsmBuilder::new("TestFSM");
    builder.add_transition(TransitionParameters::Enter { target: "A" });
    builder.add_transition(TransitionParameters::Event {
        source: "A",
        target: "B",
        event: "EventA".into(),
        action: None,
        guard: Some("GuardOne".into()),
    });
    builder.add_transition(TransitionParameters::Event {
        source: "A",
        target: "C",
        event: "EventA".into(),
        action: None,
        guard: None,
    });
    let result = builder.build();
    assert!(result.is_ok());
}

#[test]
fn build_with_substate_exit_but_no_completion_fails() {
    let mut builder = UmlFsmBuilder::new("TestFSM");
    builder.add_transition(TransitionParameters::Enter { target: "Working" });
    let working = builder.add_state("Working");

    builder.set_scope(Some(working));
    builder.add_transition(TransitionParameters::Enter { target: "Busy" });
    // `Busy` exits its region to `[*]`, but `Working` has no completion transition to redirect onto.
    builder.add_transition(TransitionParameters::Final {
        source: "Busy",
        event: Some("Finish".into()),
        action: None,
        guard: None,
    });
    builder.set_scope(None);

    let err = builder.build().unwrap_err();
    assert!(
        err.to_string().contains("no completion transition"),
        "expected SubstateExitWithoutCompletion, got: {err:?}"
    );
}

#[test]
fn build_with_duplicate_guards_per_event_fails() {
    let mut builder = UmlFsmBuilder::new("TestFSM");
    builder.add_transition(TransitionParameters::Enter { target: "A" });
    builder.add_transition(TransitionParameters::Event {
        source: "A",
        target: "B",
        event: "EventA".into(),
        action: None,
        guard: Some("DuplicateGuard".into()),
    });
    builder.add_transition(TransitionParameters::Event {
        source: "A",
        target: "C",
        event: "EventA".into(),
        action: None,
        guard: Some("DuplicateGuard".into()),
    });
    let result = builder.build();
    assert!(result.is_err());
}

#[test]
fn missing_enter_state_reports_no_names() {
    let builder = UmlFsmBuilder::new("TestFSM");
    let err = builder.build().unwrap_err();
    assert_eq!(err, Error::Build(BuildError::InvalidEnterStates(String::new())));
}

#[test]
fn multiple_enter_states_are_listed() {
    let mut builder = UmlFsmBuilder::new("TestFSM");
    builder.add_transition(TransitionParameters::Enter { target: "Start" });
    builder.add_transition(TransitionParameters::Enter { target: "AnotherStart" });
    let err = builder.build().unwrap_err();
    assert_eq!(
        err,
        Error::Build(BuildError::InvalidEnterStates("Start, AnotherStart".to_string()))
    );
    assert_eq!(
        err.to_string(),
        "Build error: FSM must have exactly one enter state, found Start, AnotherStart"
    );
}

#[test]
fn blank_name_is_rejected_last() {
    let mut builder = UmlFsmBuilder::new("  ");
    builder.add_transition(TransitionParameters::Enter { target: "Start" });
    assert_eq!(builder.build().unwrap_err(), Error::Build(BuildError::EmptyName));
}

#[test]
fn action_with_two_events_lists_them() {
    let mut builder = UmlFsmBuilder::new("TestFSM");
    builder.add_transition(TransitionParameters::Enter { target: "Start" });
    for event in ["EventA", "EventB", "EventA"] {
        builder.add_transition(TransitionParameters::Event {
            source: "Start",
            target: "End",
            event: event.into(),
            action: Some("Shared".into()),
            guard: None,
        });
    }
    let err = builder.build().unwrap_err();
    assert_eq!(
        err,
        Error::Build(BuildError::MultipleEventsPerAction {
            action: "Shared".into(),
            events: "EventA, EventB".to_string(),
        })
    );
}

#[test]
fn conflicting_transitions_name_state_and_event() {
    let mut builder = UmlFsmBuilder::new("TestFSM");
    builder.add_transition(TransitionParameters::Enter { target: "A" });
    for target in ["B", "C"] {
        builder.add_transition(TransitionParameters::Event {
            source: "A",
            target,
            event: "EventA".into(),
            action: None,
            guard: None,
        });
    }
    let err = builder.build().unwrap_err();
    assert_eq!(
        err,
        Error::Build(BuildError::ConflictingTransitions {
            state: "A".to_string(),
            event: Some("EventA".into()),
        })
    );
    assert_eq!(
        err.to_string(),
        "Build error: State 'A' has multiple transitions for event Some(Event(\"EventA\"))"
    );
}

#[test]
fn two_unguarded_completions_conflict() {
    let mut builder = UmlFsmBuilder::new("TestFSM");
    builder.add_transition(TransitionParameters::Enter { target: "A" });
    for target in ["B", "C"] {
        builder.add_transition(TransitionParameters::Direct { source: "A", target, action: None, guard: None });
    }
    let err = builder.build().unwrap_err();
    assert_eq!(
        err,
        Error::Build(BuildError::ConflictingTransitions { state: "A".to_string(), event: None })
    );
}

#[test]
fn duplicate_guard_names_the_event() {
    let mut builder = UmlFsmBuilder::new("TestFSM");
    builder.add_transition(TransitionParameters::Enter { target: "A" });
    for target in ["B", "C"] {
        builder.add_transition(TransitionParameters::Event {
            source: "A",
            target,
            event: "EventA".into(),
            action: None,
            guard: Some("Same".into()),
        });
    }
    let err = builder.build().unwrap_err();
    assert_eq!(err, Error::Build(BuildError::DuplicateGuard(Some("EventA".into()))));
}

#[test]
fn substate_exit_without_completion_names_both_states() {
    let mut builder = UmlFsmBuilder::new("TestFSM");
    builder.add_transition(TransitionParameters::Enter { target: "Working" });
    let working = builder.add_state("Working");
    builder.set_scope(Some(working));
    builder.add_transition(TransitionParameters::Enter { target: "Busy" });
    builder.add_transition(TransitionParameters::Final {
        source: "Busy",
        event: None,
        action: None,
        guard: None,
    });
    builder.set_scope(None);
    let err = builder.build().unwrap_err();
    assert_eq!(
        err,
        Error::Build(BuildError::SubstateExitWithoutCompletion {
            state: "Busy".to_string(),
            parent: "Working".to_string(),
        })
    );
}
