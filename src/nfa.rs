//! Nondeterministic automata: the transition table, its simulator, and the
//! subset construction that turns it into a deterministic one.
pub mod machine;
pub mod model;
pub mod table;
pub mod translator;

pub use machine::Machine;
pub use model::{Input, NfaModel};
pub use table::Spec;
pub use translator::translate_to_dfa;
