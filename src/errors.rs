use vstd::prelude::*;

verus! {

/// A deterministic automaton has no transition for the current state and the
/// token read: the input is not in its language.
#[derive(Debug, Clone, Copy, PartialEq, Eq, Structural)]
pub enum TransitionError {
    NoSuchTransition,
}

/// A table was built against its rules.
#[derive(Debug, Clone, Copy, PartialEq, Eq, Structural)]
pub enum ValidationError {
    /// One (state, token) pair was given two different destinations.
    AmbiguousTransition,
}

impl TransitionError {
    pub fn message(&self) -> &'static str {
        match self {
            TransitionError::NoSuchTransition => "No such transition in the table.",
        }
    }
}

impl ValidationError {
    pub fn message(&self) -> &'static str {
        match self {
            ValidationError::AmbiguousTransition => "Two destinations for one state and token.",
        }
    }
}

} // verus!
