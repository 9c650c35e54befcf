use phyto_fsm::diagram::{StateDiagram, StateElements};
use phyto_fsm::error::{Error, ParseError};
use phyto_fsm::submachine::{named_entry, SubMachineResolver};

// The resolver never inspects elements and `named_entry` takes the name directly, so no test
// here needs the parser; empty elements stand in for the payload.

#[test]
fn rejects_duplicate_sub_names() {
    let elements = StateElements::default();
    let result = SubMachineResolver::from_entries(vec![("Dup", &elements), ("Dup", &elements)]);
    assert!(result.is_err());
}

#[test]
fn named_entry_rejects_unnamed_sub() {
    let elements = StateElements::default();
    let result = named_entry(None, &elements);
    assert!(result.is_err());
}

#[test]
fn unknown_reference_is_not_a_sub() {
    let elements = StateElements::default();
    let resolver = SubMachineResolver::from_entries(vec![("Worker", &elements)]).unwrap();
    assert!(!resolver.is_ref("Typo"));
    assert!(matches!(resolver.enter("Typo"), Ok(None)));
}

#[test]
fn rejects_reference_cycle() {
    let elements = StateElements::default();
    let resolver = SubMachineResolver::from_entries(vec![("Worker", &elements)]).unwrap();
    let guard = resolver.enter("Worker").expect("Worker resolves");
    assert!(guard.is_some());
    // Re-entering while the first expansion's guard is still alive is the cycle.
    assert!(guard.unwrap().resolver().enter("Worker").is_err());
}

#[test]
fn duplicate_name_is_reported() {
    let elements = StateElements::default();
    let result = SubMachineResolver::from_entries(vec![("A", &elements), ("B", &elements), ("A", &elements)]);
    assert_eq!(result.err(), Some(Error::Parse(ParseError::DuplicateSubMachine("A".to_string()))));
}

#[test]
fn dropping_the_guard_allows_the_sub_again() {
    let elements = StateElements::default();
    let resolver = SubMachineResolver::from_entries(vec![("Worker", &elements)]).unwrap();
    assert!(resolver.is_ref("Worker"));
    let guard = resolver.enter("Worker").unwrap().unwrap();
    assert_eq!(guard.resolver().depth(), 1);
    assert_eq!(resolver.depth(), 0);
    drop(guard);
    assert!(resolver.enter("Worker").unwrap().is_some());
}

#[test]
fn cycle_error_names_the_sub() {
    let elements = StateElements::default();
    let resolver = SubMachineResolver::from_entries(vec![("Worker", &elements)]).unwrap();
    let guard = resolver.enter("Worker").unwrap().unwrap();
    let err = guard.resolver().enter("Worker").err().unwrap();
    assert_eq!(err, Error::Parse(ParseError::CyclicSubMachine("Worker".to_string())));
    assert_eq!(
        err.to_string(),
        "Parse error: cyclic sub-FSM reference: 'Worker' is already being expanded"
    );
}

#[test]
fn unnamed_sub_diagram_is_rejected() {
    let named = StateDiagram::parse("@startuml Named\n[*] --> A\n@enduml\n").unwrap();
    let unnamed = StateDiagram::parse("@startuml\n[*] --> A\n@enduml\n").unwrap();
    let diagrams = vec![named, unnamed];
    let result = SubMachineResolver::try_from_subs(&diagrams);
    assert_eq!(result.err(), Some(Error::Parse(ParseError::UnnamedSubMachine)));
}
