//! A verified model of a UML state-machine toolkit: PlantUML state diagrams are parsed
//! into a hierarchical state arena, validated and normalised by a builder, and the facts
//! a code generator needs (events, actions, guards, naming) are extracted from the result.
pub mod text;
pub mod types;
pub mod model;
pub mod arena;
pub mod builder;
pub mod error;
pub mod validation;
pub mod inheritance;
pub mod enter;
pub mod fsm;
pub mod laws;
pub mod extract;
pub mod template_scan;
pub mod naming;
pub mod labels;
pub mod diagram;
pub mod submachine;
pub mod plan;
pub mod parser;
pub mod options;
