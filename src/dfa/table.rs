use vstd::prelude::*;
use crate::errors::ValidationError;
use crate::symbol::{Symbol, contains};
use super::model::DfaModel;

verus! {

broadcast use vstd::seq::Seq::lemma_push_to_set_commute;

/// A deterministic transition table. Declaring a transition registers both
/// of its endpoints; a second, different destination for a (state, token)
/// pair is refused.
pub struct Spec<Stat, Token> {
    initial: Stat,
    states: Vec<Stat>,
    accepting: Vec<Stat>,
    transitions: Vec<(Stat, Token, Stat)>,
}

impl<Stat, Token> View for Spec<Stat, Token> {
    type V = DfaModel<Stat, Token>;

    closed spec fn view(&self) -> DfaModel<Stat, Token> {
        DfaModel {
            initial: self.initial,
            states: self.states@.to_set(),
            accepts: self.accepting@.to_set(),
            table: Map::new(
                |key: (Stat, Token)|
                    exists|k: int|
                        0 <= k < self.transitions@.len() && #[trigger] self.transitions@[k].0
                            == key.0 && self.transitions@[k].1 == key.1,
                |key: (Stat, Token)|
                    self.transitions@[choose|k: int|
                        0 <= k < self.transitions@.len() && #[trigger] self.transitions@[k].0
                            == key.0 && self.transitions@[k].1 == key.1].2,
            ),
        }
    }
}

impl<Stat, Token> Spec<Stat, Token> {
    /// The model is well formed, no state is listed twice, and no (state,
    /// token) pair has two transitions.
    pub closed spec fn wf(&self) -> bool {
        &&& self@.wf()
        &&& self.states@.no_duplicates()
        &&& self.accepting@.no_duplicates()
        &&& forall|i: int, j: int|
            0 <= i < self.transitions@.len() && 0 <= j < self.transitions@.len() && i != j
                ==> !(self.transitions@[i].0 == self.transitions@[j].0 && self.transitions@[i].1
                == self.transitions@[j].1)
    }

    /// A well-formed table has a well-formed model.
    pub proof fn lemma_wf(&self)
        requires
            self.wf(),
        ensures
            self@.wf(),
    {
    }

    proof fn lemma_transition_at(&self, k: int)
        requires
            self.wf(),
            0 <= k < self.transitions@.len(),
        ensures
            self@.table.contains_key((self.transitions@[k].0, self.transitions@[k].1)),
            self@.table[(self.transitions@[k].0, self.transitions@[k].1)] == self.transitions@[k].2,
    {
        let key = (self.transitions@[k].0, self.transitions@[k].1);
        assert(self.transitions@[k].0 == key.0 && self.transitions@[k].1 == key.1);
        assert(self@.table.contains_key(key));
    }
}

impl<Stat: Symbol, Token: Symbol> Spec<Stat, Token> {
    /// A table whose only state is the initial one, with no transition and
    /// no accepting state.
    pub fn new(initial: Stat) -> (r: Self)
        ensures
            r.wf(),
            r@ == (DfaModel::<Stat, Token> {
                initial,
                states: set![initial],
                accepts: Set::empty(),
                table: Map::empty(),
            }),
    {
        let mut states: Vec<Stat> = Vec::new();
        states.push(initial.duplicate());
        let r = Spec { initial, states, accepting: Vec::new(), transitions: Vec::new() };
        assert(r.states@ =~= Seq::<Stat>::empty().push(initial));
        assert(Seq::<Stat>::empty().to_set() =~= Set::<Stat>::empty());
        assert(r@.states =~= set![initial]);
        assert(r@.accepts =~= Set::<Stat>::empty());
        assert(r@.table =~= Map::<(Stat, Token), Stat>::empty());
        r
    }

    /// Declares `state`.
    pub fn add_state(&mut self, state: Stat)
        requires
            old(self).wf(),
        ensures
            final(self).wf(),
            final(self)@ == (DfaModel { states: old(self)@.states.insert(state), ..old(self)@ }),
    {
        if !contains(&self.states, &state) {
            self.states.push(state);
        }
        assert(self@.states =~= old(self)@.states.insert(state));
        assert(self@.table =~= old(self)@.table);
    }

    /// Declares each of `states`.
    pub fn add_states<const N: usize>(&mut self, states: [Stat; N])
        requires
            old(self).wf(),
        ensures
            final(self).wf(),
            final(self)@ == (DfaModel { states: old(self)@.states + states@.to_set(), ..old(self)@ }),
    {
        let mut i: usize = 0;
        assert(states@.subrange(0, 0).to_set() =~= Set::<Stat>::empty());
        assert(old(self)@.states + Set::<Stat>::empty() =~= old(self)@.states);
        while i < N
            invariant
                self.wf(),
                i <= N,
                states@.len() == N,
                self@ == (DfaModel {
                    states: old(self)@.states + states@.subrange(0, i as int).to_set(),
                    ..old(self)@
                }),
            decreases N - i,
        {
            self.add_state(states[i].duplicate());
            assert(states@.subrange(0, i + 1) =~= states@.subrange(0, i as int).push(states@[i as int]));
            assert(old(self)@.states + states@.subrange(0, i + 1).to_set() =~= (old(self)@.states
                + states@.subrange(0, i as int).to_set()).insert(states@[i as int]));
            i += 1;
        }
        assert(states@.subrange(0, N as int) =~= states@);
    }

    /// Declares `state` and makes it accepting.
    pub fn add_accept_state(&mut self, state: Stat)
        requires
            old(self).wf(),
        ensures
            final(self).wf(),
            final(self)@ == (DfaModel {
                states: old(self)@.states.insert(state),
                accepts: old(self)@.accepts.insert(state),
                ..old(self)@
            }),
    {
        self.add_state(state.duplicate());
        if !contains(&self.accepting, &state) {
            self.accepting.push(state);
        }
        assert(self@.accepts =~= old(self)@.accepts.insert(state));
        assert(self@.table =~= old(self)@.table);
    }

    /// Declares each of `states` and makes it accepting.
    pub fn add_accept_states<const N: usize>(&mut self, states: [Stat; N])
        requires
            old(self).wf(),
        ensures
            final(self).wf(),
            final(self)@ == (DfaModel {
                states: old(self)@.states + states@.to_set(),
                accepts: old(self)@.accepts + states@.to_set(),
                ..old(self)@
            }),
    {
        let mut i: usize = 0;
        assert(states@.subrange(0, 0).to_set() =~= Set::<Stat>::empty());
        assert(old(self)@.states + Set::<Stat>::empty() =~= old(self)@.states);
        assert(old(self)@.accepts + Set::<Stat>::empty() =~= old(self)@.accepts);
        while i < N
            invariant
                self.wf(),
                i <= N,
                states@.len() == N,
                self@ == (DfaModel {
                    states: old(self)@.states + states@.subrange(0, i as int).to_set(),
                    accepts: old(self)@.accepts + states@.subrange(0, i as int).to_set(),
                    ..old(self)@
                }),
            decreases N - i,
        {
            self.add_accept_state(states[i].duplicate());
            assert(states@.subrange(0, i + 1) =~= states@.subrange(0, i as int).push(states@[i as int]));
            assert(states@.subrange(0, i + 1).to_set() =~= states@.subrange(0, i as int).to_set().insert(
                states@[i as int],
            ));
            assert(old(self)@.states + states@.subrange(0, i + 1).to_set() =~= (old(self)@.states
                + states@.subrange(0, i as int).to_set()).insert(states@[i as int]));
            assert(old(self)@.accepts + states@.subrange(0, i + 1).to_set() =~= (old(self)@.accepts
                + states@.subrange(0, i as int).to_set()).insert(states@[i as int]));
            i += 1;
        }
        assert(states@.subrange(0, N as int) =~= states@);
    }

    /// The position of the transition of (`state`, `token`), if there is one.
    fn find_transition(&self, state: &Stat, token: &Token) -> (r: Option<usize>)
        requires
            self.wf(),
        ensures
            match r {
                Some(k) => k < self.transitions@.len() && self.transitions@[k as int].0 == *state
                    && self.transitions@[k as int].1 == *token && self@.table.contains_key(
                    (*state, *token),
                ) && self@.table[(*state, *token)] == self.transitions@[k as int].2,
                None => !self@.table.contains_key((*state, *token)),
            },
    {
        let mut k: usize = 0;
        while k < self.transitions.len()
            invariant
                self.wf(),
                k <= self.transitions@.len(),
                forall|q: int|
                    0 <= q < k ==> !(#[trigger] self.transitions@[q].0 == *state
                        && self.transitions@[q].1 == *token),
            decreases self.transitions@.len() - k,
        {
            if self.transitions[k].0.same(state) && self.transitions[k].1.same(token) {
                proof {
                    self.lemma_transition_at(k as int);
                }
                return Some(k);
            }
            k += 1;
        }
        None
    }

    /// Declares the transition of (`from`, `by`) to `to` and both endpoints.
    /// A pair that already leads elsewhere is refused and nothing changes.
    pub fn add_transition(&mut self, from: Stat, by: Token, to: Stat) -> (r: Result<
        (),
        ValidationError,
    >)
        requires
            old(self).wf(),
        ensures
            final(self).wf(),
            old(self)@.table.contains_key((from, by)) && old(self)@.table[(from, by)] != to ==> r
                == Err::<(), ValidationError>(ValidationError::AmbiguousTransition) && final(self)@
                == old(self)@,
            !(old(self)@.table.contains_key((from, by)) && old(self)@.table[(from, by)] != to)
                ==> r is Ok && final(self)@ == (DfaModel {
                states: old(self)@.states.insert(from).insert(to),
                table: old(self)@.table.insert((from, by), to),
                ..old(self)@
            }),
    {
        match self.find_transition(&from, &by) {
            Some(k) => {
                if self.transitions[k].2.same(&to) {
                    assert(old(self)@.states.insert(from).insert(to) =~= old(self)@.states);
                    assert(old(self)@.table.insert((from, by), to) =~= old(self)@.table);
                    Ok(())
                } else {
                    Err(ValidationError::AmbiguousTransition)
                }
            },
            None => {
                self.add_state(from.duplicate());
                self.add_state(to.duplicate());
                let ghost mid = *self;
                self.transitions.push((from, by, to));
                let ghost last = self.transitions@.len() - 1;
                assert(self.transitions@[last] == (from, by, to));
                assert forall|i: int, j: int|
                    0 <= i < self.transitions@.len() && 0 <= j < self.transitions@.len() && i != j
                        implies !(self.transitions@[i].0 == self.transitions@[j].0
                        && self.transitions@[i].1 == self.transitions@[j].1) by {
                    if i < last && j < last {
                        assert(self.transitions@[i] == mid.transitions@[i]);
                        assert(self.transitions@[j] == mid.transitions@[j]);
                    } else if i < last {
                        assert(self.transitions@[i] == mid.transitions@[i]);
                        if self.transitions@[i].0 == from && self.transitions@[i].1 == by {
                            mid.lemma_transition_at(i);
                        }
                    } else if j < last {
                        assert(self.transitions@[j] == mid.transitions@[j]);
                        if self.transitions@[j].0 == from && self.transitions@[j].1 == by {
                            mid.lemma_transition_at(j);
                        }
                    }
                }
                assert forall|key: (Stat, Token)|
                    #[trigger] self@.table.contains_key(key) == mid@.table.insert(
                        (from, by),
                        to,
                    ).contains_key(key) by {
                    if self@.table.contains_key(key) && key != (from, by) {
                        let k = choose|k: int|
                            0 <= k < self.transitions@.len() && #[trigger] self.transitions@[k].0
                                == key.0 && self.transitions@[k].1 == key.1;
                        assert(k < last);
                        assert(self.transitions@[k] == mid.transitions@[k]);
                        mid.lemma_transition_at(k);
                    }
                    if mid@.table.contains_key(key) {
                        let k = choose|k: int|
                            0 <= k < mid.transitions@.len() && #[trigger] mid.transitions@[k].0
                                == key.0 && mid.transitions@[k].1 == key.1;
                        assert(self.transitions@[k] == mid.transitions@[k]);
                        assert(self@.table.contains_key(key));
                    }
                    if key == (from, by) {
                        assert(self.transitions@[last].0 == key.0);
                    }
                }
                assert forall|key: (Stat, Token)| #[trigger]
                    self@.table.contains_key(key) implies self@.table[key] == mid@.table.insert(
                    (from, by),
                    to,
                )[key] by {
                    let k = choose|k: int|
                        0 <= k < self.transitions@.len() && #[trigger] self.transitions@[k].0
                            == key.0 && self.transitions@[k].1 == key.1;
                    if k < last {
                        assert(self.transitions@[k] == mid.transitions@[k]);
                        mid.lemma_transition_at(k);
                    }
                }
                assert(self@.table =~= mid@.table.insert((from, by), to));
                assert(self@.states =~= mid@.states);
                assert(self@.accepts =~= mid@.accepts);
                assert(mid@.states =~= old(self)@.states.insert(from).insert(to));
                Ok(())
            },
        }
    }

    pub fn initial_state(&self) -> (r: Stat)
        ensures
            r == self@.initial,
    {
        self.initial.duplicate()
    }

    /// The destination of (`state`, `token`), if it has one.
    pub fn transition_of(&self, state: Stat, token: Token) -> (r: Option<Stat>)
        requires
            self.wf(),
        ensures
            r == if self@.table.contains_key((state, token)) {
                Some(self@.table[(state, token)])
            } else {
                None
            },
    {
        match self.find_transition(&state, &token) {
            Some(k) => Some(self.transitions[k].2.duplicate()),
            None => None,
        }
    }

    /// Whether (`state`, `token`) has a destination.
    pub fn has_transition(&self, state: Stat, token: Token) -> (r: bool)
        requires
            self.wf(),
        ensures
            r == self@.table.contains_key((state, token)),
    {
        self.find_transition(&state, &token).is_some()
    }

    /// Whether `state` is an accepting state.
    pub fn is_acceptable_state(&self, state: &Stat) -> (r: bool)
        ensures
            r == self@.accepts.contains(*state),
    {
        contains(&self.accepting, state)
    }

    /// Every declared state, each once.
    pub fn all_states(&self) -> (r: Vec<Stat>)
        requires
            self.wf(),
        ensures
            r@.no_duplicates(),
            r@.to_set() == self@.states,
    {
        let mut r: Vec<Stat> = Vec::new();
        let mut i: usize = 0;
        while i < self.states.len()
            invariant
                i <= self.states@.len(),
                r@ == self.states@.subrange(0, i as int),
            decreases self.states@.len() - i,
        {
            r.push(self.states[i].duplicate());
            i += 1;
            assert(r@ =~= self.states@.subrange(0, i as int));
        }
        assert(r@ =~= self.states@);
        r
    }

    /// Every accepting state, each once.
    pub fn accept_states(&self) -> (r: Vec<Stat>)
        requires
            self.wf(),
        ensures
            r@.no_duplicates(),
            r@.to_set() == self@.accepts,
    {
        let mut r: Vec<Stat> = Vec::new();
        let mut i: usize = 0;
        while i < self.accepting.len()
            invariant
                i <= self.accepting@.len(),
                r@ == self.accepting@.subrange(0, i as int),
            decreases self.accepting@.len() - i,
        {
            r.push(self.accepting[i].duplicate());
            i += 1;
            assert(r@ =~= self.accepting@.subrange(0, i as int));
        }
        assert(r@ =~= self.accepting@);
        r
    }

    /// Every transition as (state, token, destination), each pair once.
    pub fn transitions(&self) -> (r: Vec<(Stat, Token, Stat)>)
        requires
            self.wf(),
        ensures
            r@.len() == self@.table.dom().len(),
            forall|a: Stat, t: Token, b: Stat|
                r@.contains((a, t, b)) <==> self@.table.contains_key((a, t)) && self@.table[(a, t)]
                    == b,
    {
        let mut r: Vec<(Stat, Token, Stat)> = Vec::new();
        let mut i: usize = 0;
        while i < self.transitions.len()
            invariant
                i <= self.transitions@.len(),
                r@ == self.transitions@.subrange(0, i as int),
            decreases self.transitions@.len() - i,
        {
            let t = &self.transitions[i];
            r.push((t.0.duplicate(), t.1.duplicate(), t.2.duplicate()));
            i += 1;
            assert(r@ =~= self.transitions@.subrange(0, i as int));
        }
        assert(r@ =~= self.transitions@);
        assert forall|a: Stat, t: Token, b: Stat|
            r@.contains((a, t, b)) <==> self@.table.contains_key((a, t)) && self@.table[(a, t)]
                == b by {
            if r@.contains((a, t, b)) {
                let k = choose|k: int| 0 <= k < r@.len() && r@[k] == (a, t, b);
                self.lemma_transition_at(k);
            }
            if self@.table.contains_key((a, t)) && self@.table[(a, t)] == b {
                let k = choose|k: int|
                    0 <= k < self.transitions@.len() && #[trigger] self.transitions@[k].0 == a
                        && self.transitions@[k].1 == t;
                self.lemma_transition_at(k);
                assert(r@[k] == (a, t, b));
            }
        }
        proof {
            let keys = r@.map_values(|x: (Stat, Token, Stat)| (x.0, x.1));
            assert(keys.no_duplicates());
            assert(keys.to_set() =~= self@.table.dom()) by {
                assert forall|key: (Stat, Token)| self@.table.dom().contains(key) implies keys.to_set().contains(key) by {
                    let k = choose|k: int|
                        0 <= k < self.transitions@.len() && #[trigger] self.transitions@[k].0
                            == key.0 && self.transitions@[k].1 == key.1;
                    assert(keys[k] == key);
                }
                assert forall|key: (Stat, Token)| keys.to_set().contains(key) implies self@.table.dom().contains(key) by {
                    let k = choose|k: int| 0 <= k < keys.len() && keys[k] == key;
                    self.lemma_transition_at(k);
                }
            }
            keys.unique_seq_to_set();
        }
        r
    }

    /// Runs the table over `input` from its initial state and tells whether
    /// every token had a transition and the last state accepts.
    pub fn run(&self, input: &[Token]) -> (r: bool)
        requires
            self.wf(),
        ensures
            r == self@.accepts(input@),
    {
        let mut cur = self.initial.duplicate();
        let mut i: usize = 0;
        while i < input.len()
            invariant
                self.wf(),
                i <= input@.len(),
                self@.run_from(self@.initial, input@.subrange(0, i as int)) == Some(cur),
            decreases input@.len() - i,
        {
            proof {
                self@.lemma_run_from_push(self@.initial, input@.subrange(0, i as int), input@[i as int]);
                assert(input@.subrange(0, i as int).push(input@[i as int]) =~= input@.subrange(0, i + 1));
            }
            match self.find_transition(&cur, &input[i]) {
                Some(k) => {
                    cur = self.transitions[k].2.duplicate();
                },
                None => {
                    proof {
                        lemma_run_none(self@, input@, i as int);
                    }
                    return false;
                },
            }
            i += 1;
        }
        assert(input@.subrange(0, input@.len() as int) =~= input@);
        contains(&self.accepting, &cur)
    }
}

/// Once a prefix of `s` has no run, neither has `s`.
proof fn lemma_run_none<Stat, Token>(m: DfaModel<Stat, Token>, s: Seq<Token>, i: int)
    requires
        0 <= i < s.len(),
        m.run_from(m.initial, s.subrange(0, i + 1)) is None,
    ensures
        m.run_from(m.initial, s) is None,
    decreases s.len() - i,
{
    if i + 1 < s.len() {
        m.lemma_run_from_push(m.initial, s.subrange(0, i + 1), s[i + 1]);
        assert(s.subrange(0, i + 1).push(s[i + 1]) =~= s.subrange(0, i + 2));
        lemma_run_none(m, s, i + 1);
    } else {
        assert(s.subrange(0, i + 1) =~= s);
    }
}

} // verus!
