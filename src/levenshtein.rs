//! Bounded edit distance: the Levenshtein automaton of a pattern and the
//! dynamic-programming distance it is checked against.
pub mod def;
pub mod language;
pub mod machine;

pub use def::{distance, Table};
pub use machine::Machine;
