use vstd::prelude::*;

verus! {

/// The mathematical content of a deterministic automaton: its initial state,
/// its states, its accepting states, and one destination per (state, token)
/// pair that has a transition.
#[verifier::reject_recursive_types(Stat)]
#[verifier::reject_recursive_types(Token)]
pub struct DfaModel<Stat, Token> {
    pub initial: Stat,
    pub states: Set<Stat>,
    pub accepts: Set<Stat>,
    pub table: Map<(Stat, Token), Stat>,
}

impl<Stat, Token> DfaModel<Stat, Token> {
    /// The initial state, the accepting states and every transition's
    /// endpoints are declared states.
    pub open spec fn wf(self) -> bool {
        &&& self.states.finite()
        &&& self.states.contains(self.initial)
        &&& self.accepts.subset_of(self.states)
        &&& forall|key: (Stat, Token)| #[trigger]
            self.table.contains_key(key) ==> self.states.contains(key.0) && self.states.contains(
                self.table[key],
            )
    }

    /// The state reached from `q` by reading `s`, or `None` where some token
    /// has no transition.
    pub open spec fn run_from(self, q: Stat, s: Seq<Token>) -> Option<Stat>
        decreases s.len(),
    {
        if s.len() == 0 {
            Some(q)
        } else if self.table.contains_key((q, s[0])) {
            self.run_from(self.table[(q, s[0])], s.drop_first())
        } else {
            None
        }
    }

    /// The automaton accepts the token sequence `s`.
    pub open spec fn accepts(self, s: Seq<Token>) -> bool {
        match self.run_from(self.initial, s) {
            Some(q) => self.accepts.contains(q),
            None => false,
        }
    }

    /// Reading one more token takes one more transition.
    pub proof fn lemma_run_from_push(self, q: Stat, s: Seq<Token>, t: Token)
        ensures
            self.run_from(q, s.push(t)) == match self.run_from(q, s) {
                Some(p) => if self.table.contains_key((p, t)) {
                    Some(self.table[(p, t)])
                } else {
                    None
                },
                None => None,
            },
        decreases s.len(),
    {
        assert(s.push(t)[0] == if s.len() == 0 { t } else { s[0] });
        if s.len() == 0 {
            let e = s.push(t).drop_first();
            assert(e =~= Seq::<Token>::empty());
            if self.table.contains_key((q, t)) {
                assert(self.run_from(self.table[(q, t)], e) == Some(self.table[(q, t)]));
            }
        } else {
            assert(s.push(t).drop_first() =~= s.drop_first().push(t));
            if self.table.contains_key((q, s[0])) {
                self.lemma_run_from_push(self.table[(q, s[0])], s.drop_first(), t);
            }
        }
    }
}

} // verus!
