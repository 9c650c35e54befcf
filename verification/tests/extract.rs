use phyto_fsm::builder::UmlFsmBuilder;
use phyto_fsm::extract::{
    actions, direct_transition_actions, direct_transition_guards, enter_actions, events, exit_actions, guards,
    StateAction,
};
use phyto_fsm::model::TransitionParameters;
use phyto_fsm::types::{Action, Event};

#[test]
fn direct_transitions_not_in_events() {
    let mut builder = UmlFsmBuilder::new("TestFSM");
    builder.add_enter_state("A");
    builder.add_transition(TransitionParameters::Direct {
        source: "A",
        target: "B",
        action: Some("DoSomething".into()),
        guard: None,
    });
    builder.add_transition(TransitionParameters::Event {
        source: "B",
        target: "A",
        event: "GoBack".into(),
        action: None,
        guard: None,
    });
    let fsm = builder.build().unwrap();

    let evts: Vec<_> = events(&fsm);
    assert_eq!(evts.len(), 1);
    assert_eq!(evts[0], &Event::from("GoBack"));
}

#[test]
fn direct_transition_actions_separate_from_event_actions() {
    let mut builder = UmlFsmBuilder::new("TestFSM");
    builder.add_enter_state("A");
    builder.add_transition(TransitionParameters::Direct {
        source: "A",
        target: "B",
        action: Some("DirectAction".into()),
        guard: None,
    });
    builder.add_transition(TransitionParameters::Event {
        source: "B",
        target: "A",
        event: "GoBack".into(),
        action: Some("EventAction".into()),
        guard: None,
    });
    let fsm = builder.build().unwrap();

    let act: Vec<_> = actions(&fsm);
    assert_eq!(act.len(), 1);
    assert_eq!(act[0].0, &Action::from("EventAction"));

    let direct: Vec<_> = direct_transition_actions(&fsm);
    assert_eq!(direct.len(), 1);
    assert_eq!(direct[0], &Action::from("DirectAction"));
}

#[test]
fn enter_actions_group_states_sharing_one_action() {
    let mut builder = UmlFsmBuilder::new("TestFSM");
    builder.add_enter_state("A");
    builder.add_enter_action("A", "OnEnter".into());
    builder.add_state("B");
    builder.add_enter_action("B", "OnEnter".into());
    builder.add_state("C");
    builder.add_enter_action("C", "OnlyC".into());
    builder.add_transition(TransitionParameters::Event {
        source: "A",
        target: "B",
        event: "Go".into(),
        action: None,
        guard: None,
    });
    builder.add_transition(TransitionParameters::Event {
        source: "B",
        target: "C",
        event: "Go".into(),
        action: None,
        guard: None,
    });
    let fsm = builder.build().unwrap();

    let entered: Vec<_> = enter_actions(&fsm);
    assert_eq!(
        entered,
        vec![
            StateAction {
                action: Action::from("OnEnter"),
                states: vec!["A".to_string(), "B".to_string()],
            },
            StateAction {
                action: Action::from("OnlyC"),
                states: vec!["C".to_string()],
            },
        ]
    );
}

#[test]
fn direct_transition_guards_separate_from_event_guards() {
    let mut builder = UmlFsmBuilder::new("TestFSM");
    builder.add_enter_state("A");
    builder.add_transition(TransitionParameters::Direct {
        source: "A",
        target: "B",
        action: None,
        guard: Some("DirectGuard".into()),
    });
    builder.add_transition(TransitionParameters::Event {
        source: "A",
        target: "C",
        event: "GoToC".into(),
        action: None,
        guard: Some("EventGuard".into()),
    });
    let fsm = builder.build().unwrap();

    let g: Vec<_> = guards(&fsm);
    assert_eq!(g.len(), 1);
    assert_eq!(g[0].0, &Action::from("EventGuard"));

    let direct: Vec<_> = direct_transition_guards(&fsm);
    assert_eq!(direct.len(), 1);
    assert_eq!(direct[0], &Action::from("DirectGuard"));
}

#[test]
fn events_are_listed_once_in_order_of_first_use() {
    let mut builder = UmlFsmBuilder::new("TestFSM");
    builder.add_enter_state("A");
    for (source, target, event) in [("A", "B", "Go"), ("B", "C", "Next"), ("C", "A", "Go")] {
        builder.add_transition(TransitionParameters::Event {
            source,
            target,
            event: event.into(),
            action: None,
            guard: None,
        });
    }
    let fsm = builder.build().unwrap();
    let evts: Vec<_> = events(&fsm).into_iter().map(|e| e.0.clone()).collect();
    assert_eq!(evts, vec!["Go".to_string(), "Next".to_string()]);
}

#[test]
fn exit_actions_use_qualified_names() {
    let mut builder = UmlFsmBuilder::new("TestFSM");
    builder.add_enter_state("Outer");
    let outer = builder.add_state("Outer");
    builder.add_exit_action("Outer", "Leave".into());
    builder.set_scope(Some(outer));
    builder.add_enter_state("Inner");
    builder.add_exit_action("Inner", "Leave".into());
    builder.set_scope(None);
    let fsm = builder.build().unwrap();

    let exited = exit_actions(&fsm);
    assert_eq!(
        exited,
        vec![StateAction {
            action: Action::from("Leave"),
            states: vec!["Outer".to_string(), "Outer::Inner".to_string()],
        }]
    );
}

#[test]
fn guards_pair_each_guard_with_its_event() {
    let mut builder = UmlFsmBuilder::new("TestFSM");
    builder.add_enter_state("A");
    builder.add_transition(TransitionParameters::Event {
        source: "A",
        target: "B",
        event: "Go".into(),
        action: None,
        guard: Some("Ready".into()),
    });
    builder.add_transition(TransitionParameters::Event {
        source: "B",
        target: "A",
        event: "Back".into(),
        action: None,
        guard: Some("Ready".into()),
    });
    let fsm = builder.build().unwrap();
    let g: Vec<(String, String)> = guards(&fsm).into_iter().map(|(a, e)| (a.0.clone(), e.0.clone())).collect();
    assert_eq!(
        g,
        vec![("Ready".to_string(), "Go".to_string()), ("Ready".to_string(), "Back".to_string())]
    );
}
