//! Verified core of a regular-expression visualizer: automaton models,
//! step-by-step simulation traces, graph building and layout decisions.

pub mod automaton;
pub mod sets;
pub mod sim;
pub mod text;
pub mod highlight;
pub mod simulation;
pub mod message;
pub mod visibility;
pub mod pins;
pub mod graph;
pub mod state;
pub mod layout;
pub mod dfa_layout;
pub mod tree_layout;
pub mod summary;
