use vstd::prelude::*;
use crate::errors::TransitionError;
use crate::symbol::Symbol;
use super::model::DfaModel;
use super::table::Spec;

verus! {

/// Runs a deterministic table: one current state, which moves on each token
/// that has a transition.
pub struct Machine<Stat, Token> {
    table: Spec<Stat, Token>,
    current: Stat,
}

impl<Stat, Token> Machine<Stat, Token> {
    /// The table that the machine runs.
    pub closed spec fn automaton(&self) -> DfaModel<Stat, Token> {
        self.table@
    }

    /// The current state.
    pub closed spec fn state(&self) -> Stat {
        self.current
    }

    pub closed spec fn wf(&self) -> bool {
        self.table.wf() && self.table@.states.contains(self.current)
    }
}

impl<Stat: Symbol, Token: Symbol> Machine<Stat, Token> {
    /// A machine at the table's initial state.
    pub fn from_spec(table: Spec<Stat, Token>) -> (r: Self)
        requires
            table.wf(),
        ensures
            r.wf(),
            r.automaton() == table@,
            r.state() == table@.initial,
    {
        let current = table.initial_state();
        proof {
            table.lemma_wf();
        }
        Machine { table, current }
    }

    /// Takes the transition of the current state on `token`; where there is
    /// none, fails and stays where it is.
    pub fn step(&mut self, token: Token) -> (r: Result<(), TransitionError>)
        requires
            old(self).wf(),
        ensures
            final(self).wf(),
            final(self).automaton() == old(self).automaton(),
            old(self).automaton().table.contains_key((old(self).state(), token)) ==> r is Ok
                && final(self).state() == old(self).automaton().table[(old(self).state(), token)],
            !old(self).automaton().table.contains_key((old(self).state(), token)) ==> r == Err::<
                (),
                TransitionError,
            >(TransitionError::NoSuchTransition) && final(self).state() == old(self).state(),
    {
        match self.table.transition_of(self.current.duplicate(), token) {
            Some(next) => {
                proof {
                    self.table.lemma_wf();
                }
                self.current = next;
                Ok(())
            },
            None => Err(TransitionError::NoSuchTransition),
        }
    }

    /// Whether the current state is accepting.
    pub fn in_accept_states(&self) -> (r: bool)
        requires
            self.wf(),
        ensures
            r == self.automaton().accepts.contains(self.state()),
    {
        self.table.is_acceptable_state(&self.current)
    }

    /// Whether the current state has a transition on `token`; nothing moves.
    pub fn has_transition(&self, token: Token) -> (r: bool)
        requires
            self.wf(),
        ensures
            r == self.automaton().table.contains_key((self.state(), token)),
    {
        self.table.has_transition(self.current.duplicate(), token)
    }

    pub fn current_state(&self) -> (r: Stat)
        ensures
            r == self.state(),
    {
        self.current.duplicate()
    }
}

} // verus!
