//! Deterministic automata: the transition table and its simulator.
pub mod machine;
pub mod model;
pub mod table;

pub use machine::Machine;
pub use model::DfaModel;
pub use table::Spec;
