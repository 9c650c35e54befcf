use phyto_fsm::builder::UmlFsmBuilder;
use phyto_fsm::fsm::{Transition, UmlFsm};
use phyto_fsm::model::{TransitionKind, TransitionParameters};
use phyto_fsm::text::{compare_text, TextOrder};
use phyto_fsm::types::{Action, Event};

fn sample_fsm() -> UmlFsm {
    let mut builder = UmlFsmBuilder::new("Sample");
    builder.add_transition(TransitionParameters::Enter { target: "Idle" });
    builder.add_transition(TransitionParameters::Event {
        source: "Idle",
        target: "Busy",
        event: Event::named("Start"),
        action: Some(Action::named("Begin")),
        guard: Some(Action::named("Ready")),
    });
    builder.add_transition(TransitionParameters::Internal {
        source: "Busy",
        event: Event::named("Tick"),
        action: None,
        guard: None,
    });
    builder.add_transition(TransitionParameters::Direct {
        source: "Busy",
        target: "Idle",
        action: None,
        guard: Some(Action::named("Done")),
    });
    builder.add_transition(TransitionParameters::Final {
        source: "Idle",
        event: Some(Event::named("Quit")),
        action: None,
        guard: None,
    });
    builder.build().unwrap()
}

fn texts(fsm: &UmlFsm) -> Vec<String> {
    fsm.transitions().iter().map(|t| t.to_string()).collect()
}

#[test]
fn transition_text_names_source_event_guard_action_and_destination() {
    let fsm = sample_fsm();
    let all = texts(&fsm);
    assert!(all.contains(&"Idle --[Start [Ready] / Begin]--> Busy".to_string()));
}

#[test]
fn transition_text_marks_internal_direct_and_final() {
    let fsm = sample_fsm();
    let all = texts(&fsm);
    assert!(all.contains(&"Busy --[Tick]--> (internal)".to_string()));
    assert!(all.contains(&"Busy --[(direct) [Done]]--> Idle".to_string()));
    assert!(all.contains(&"Idle --[Quit]--> [*]".to_string()));
}

fn find<'a>(all: &[Transition<'a>], source: &str, event: Option<&str>) -> Transition<'a> {
    *all.iter()
        .find(|t| {
            t.source().name() == source
                && t.event().map(|e| e.0.as_str()) == event
                && !matches!(t, TransitionKind::Enter { .. })
        })
        .unwrap()
}

#[test]
fn transitions_order_by_source_then_event() {
    let fsm = sample_fsm();
    let all = fsm.transitions();
    let busy_tick = find(&all, "Busy", Some("Tick"));
    let busy_direct = find(&all, "Busy", None);
    let idle_start = find(&all, "Idle", Some("Start"));
    let idle_quit = find(&all, "Idle", Some("Quit"));

    assert_eq!(busy_tick.order(&idle_start), TextOrder::Before);
    assert_eq!(idle_start.order(&busy_tick), TextOrder::After);
    assert_eq!(busy_direct.order(&busy_tick), TextOrder::Before);
    assert_eq!(idle_quit.order(&idle_start), TextOrder::Before);
    assert_eq!(idle_start.order(&idle_start), TextOrder::Same);
}

#[test]
fn text_order_puts_prefixes_first() {
    assert_eq!(compare_text("ab", "abc"), TextOrder::Before);
    assert_eq!(compare_text("abc", "ab"), TextOrder::After);
    assert_eq!(compare_text("B", "a"), TextOrder::Before);
    assert_eq!(compare_text("", ""), TextOrder::Same);
}
