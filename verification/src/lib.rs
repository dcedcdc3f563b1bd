//! Darkstar: the verified core of an OWL 2 RL ontology editor.
//!
//! The library holds the change history with undo and redo, the encoding of
//! RDF terms as prefixed strings, the triple graphs of the reasoner (kept in
//! `sophia`'s `FastGraph`), the OWL 2 RL inference rules with the forward
//! chaining engine, the editing manager, and the pure parts of the user
//! interface model.

pub mod history;
pub mod term;
pub mod graph;
pub mod memory;
pub mod rules;
pub mod settings;
pub mod manager;
pub mod plugins;
pub mod ui;
pub mod layout;
pub mod outline;
