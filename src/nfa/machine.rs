use vstd::prelude::*;
use crate::symbol::Symbol;
use super::model::{NfaModel, mask_set};
use super::table::Spec;

verus! {

/// Runs a nondeterministic table: a frontier of active states, closed under
/// epsilon edges after every step. An empty frontier is no error; it stays
/// empty and never accepts.
pub struct Machine<Stat, Token> {
    table: Spec<Stat, Token>,
    current: Vec<bool>,
}

impl<Stat, Token> Machine<Stat, Token> {
    /// The table that the machine runs.
    pub closed spec fn automaton(&self) -> NfaModel<Stat, Token> {
        self.table@
    }

    /// The numbers of the active states.
    pub closed spec fn frontier(&self) -> Set<int> {
        mask_set(self.current@)
    }

    pub closed spec fn wf(&self) -> bool {
        self.table@.wf() && self.current@.len() == self.table@.len()
    }
}

impl<Stat: Symbol, Token: Symbol> Machine<Stat, Token> {
    /// A machine whose frontier is the closure of the initial state.
    pub fn from_spec(table: Spec<Stat, Token>) -> (r: Self)
        requires
            table@.wf(),
        ensures
            r.wf(),
            r.automaton() == table@,
            r.frontier() == table@.start(),
    {
        let current = table.initial_frontier();
        Machine { table, current }
    }

    /// Reads `by`: the new frontier is the closure of the states that a
    /// wildcard edge or an edge labelled `by` leads to from the old one.
    pub fn step(&mut self, by: Token)
        requires
            old(self).wf(),
        ensures
            final(self).wf(),
            final(self).automaton() == old(self).automaton(),
            final(self).frontier() == old(self).automaton().advance(old(self).frontier(), by),
    {
        self.current = self.table.next_frontier(&self.current, &by);
    }

    /// Whether the frontier holds an accepting state.
    pub fn in_accept_states(&self) -> (r: bool)
        requires
            self.wf(),
        ensures
            r == self.automaton().accepting_in(self.frontier()),
    {
        self.table.frontier_accepts(&self.current)
    }

    /// The values of the active states, each once.
    pub fn current_states(&self) -> (r: Vec<Stat>)
        requires
            self.wf(),
        ensures
            r@.no_duplicates(),
            forall|s: Stat|
                r@.contains(s) <==> exists|i: int|
                    #[trigger] self.frontier().contains(i) && self.automaton().states[i] == s,
    {
        let all = self.table.all_states();
        let ghost m = self.table@;
        let mut r: Vec<Stat> = Vec::new();
        let mut i: usize = 0;
        while i < all.len()
            invariant
                all@ == m.states,
                m.wf(),
                self.current@.len() == m.len(),
                i <= all@.len(),
                r@.no_duplicates(),
                forall|s: Stat|
                    r@.contains(s) <==> exists|j: int| 0 <= j < i && self.current@[j] && m.states[j] == s,
            decreases all@.len() - i,
        {
            if self.current[i] {
                let ghost old_r = r@;
                let ghost x = m.states[i as int];
                assert(!old_r.contains(x)) by {
                    if old_r.contains(x) {
                        let j = choose|j: int| 0 <= j < i && self.current@[j] && m.states[j] == x;
                    }
                }
                r.push(all[i].duplicate());
                assert forall|s: Stat| r@.contains(s) <==> exists|j: int|
                    0 <= j < i + 1 && self.current@[j] && m.states[j] == s by {
                    if r@.contains(s) {
                        let p = choose|p: int| 0 <= p < r@.len() && r@[p] == s;
                        if p < old_r.len() {
                            assert(old_r[p] == s);
                        }
                    }
                    if old_r.contains(s) {
                        let p = choose|p: int| 0 <= p < old_r.len() && old_r[p] == s;
                        assert(r@[p] == s);
                    }
                    assert(r@[old_r.len() as int] == x);
                }
            }
            i += 1;
        }
        assert forall|s: Stat| r@.contains(s) <==> exists|i: int|
            #[trigger] self.frontier().contains(i) && self.automaton().states[i] == s by {
            if r@.contains(s) {
                let j = choose|j: int| 0 <= j < all@.len() && self.current@[j] && m.states[j] == s;
                assert(self.frontier().contains(j));
            }
            if exists|i: int| #[trigger] self.frontier().contains(i) && self.automaton().states[i] == s {
                let i = choose|i: int| #[trigger] self.frontier().contains(i) && self.automaton().states[i] == s;
                assert(self.current@[i]);
            }
        }
        r
    }
}

} // verus!
