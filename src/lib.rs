//! Finite automata for bounded-edit-distance string matching: nondeterministic
//! and deterministic transition tables, their simulators, subset construction,
//! and the Levenshtein automaton.
pub mod symbol;
pub mod nfa;
pub mod dfa;
pub mod errors;
pub mod levenshtein;
