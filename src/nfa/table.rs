use vstd::prelude::*;
use crate::symbol::{Symbol, contains};
use super::model::{Input, NfaModel, mask_set, lemma_mask_set_bounded, lemma_mask_set_mark};

verus! {

impl<T: Symbol> Symbol for Input<T> {
    fn same(&self, other: &Self) -> (r: bool) {
        match (self, other) {
            (Input::Epsilon, Input::Epsilon) => true,
            (Input::Any, Input::Any) => true,
            (Input::Token(a), Input::Token(b)) => a.same(b),
            _ => false,
        }
    }

    fn duplicate(&self) -> (r: Self) {
        match self {
            Input::Epsilon => Input::Epsilon,
            Input::Any => Input::Any,
            Input::Token(t) => Input::Token(t.duplicate()),
        }
    }
}

struct Edge<Token> {
    from: usize,
    by: Input<Token>,
    to: usize,
}

/// A nondeterministic transition table. Adding an edge registers both of its
/// endpoints, so the initial state, the accepting states and every endpoint
/// are always declared states; there is no way to remove anything.
pub struct Spec<Stat, Token> {
    states: Vec<Stat>,
    accepting: Vec<bool>,
    edges: Vec<Edge<Token>>,
}

impl<Stat, Token> View for Spec<Stat, Token> {
    type V = NfaModel<Stat, Token>;

    closed spec fn view(&self) -> NfaModel<Stat, Token> {
        NfaModel {
            states: self.states@,
            accepting: self.accepting@,
            edges: self.edges@.map_values(|e: Edge<Token>| (e.from as int, e.by, e.to as int)),
        }
    }
}

/// A mask of `n` unmarked states.
fn unmarked(n: usize) -> (r: Vec<bool>)
    ensures
        r@.len() == n,
        forall|i: int| 0 <= i < n ==> !r@[i],
        mask_set(r@) == Set::<int>::empty(),
{
    let mut r: Vec<bool> = Vec::new();
    while r.len() < n
        invariant
            r@.len() <= n,
            forall|i: int| 0 <= i < r@.len() ==> !r@[i],
        decreases n - r@.len(),
    {
        r.push(false);
    }
    assert(mask_set(r@) =~= Set::<int>::empty());
    r
}

impl<Stat: Symbol, Token: Symbol> Spec<Stat, Token> {
    /// A table whose only state is the initial one, not accepting.
    pub fn new(initial_state: Stat) -> (r: Self)
        ensures
            r@ == (NfaModel::<Stat, Token> {
                states: seq![initial_state],
                accepting: seq![false],
                edges: Seq::empty(),
            }),
            r@.wf(),
    {
        let mut states: Vec<Stat> = Vec::new();
        states.push(initial_state);
        let mut accepting: Vec<bool> = Vec::new();
        accepting.push(false);
        let r = Spec { states, accepting, edges: Vec::new() };
        assert(r@.states =~= seq![initial_state]);
        assert(r@.accepting =~= seq![false]);
        assert(r@.edges =~= Seq::<(int, Input<Token>, int)>::empty());
        r
    }

    fn find(&self, s: &Stat) -> (r: Option<usize>)
        requires
            self@.wf(),
        ensures
            match r {
                Some(i) => i < self@.len() && self@.states[i as int] == *s && self@.index_of(*s)
                    == i,
                None => !self@.states.contains(*s),
            },
    {
        let mut i: usize = 0;
        while i < self.states.len()
            invariant
                self@.wf(),
                i <= self.states@.len(),
                forall|j: int| 0 <= j < i ==> self.states@[j] != *s,
            decreases self.states@.len() - i,
        {
            if self.states[i].same(s) {
                proof {
                    self@.lemma_index_of(i as int);
                }
                return Some(i);
            }
            i += 1;
        }
        None
    }

    fn register(&mut self, s: Stat) -> (r: usize)
        requires
            old(self)@.wf(),
        ensures
            final(self)@ == old(self)@.with_state(s),
            final(self)@.wf(),
            r < final(self)@.len(),
            final(self)@.states[r as int] == s,
            final(self)@.index_of(s) == r,
    {
        match self.find(&s) {
            Some(i) => i,
            None => {
                let i = self.states.len();
                self.states.push(s);
                self.accepting.push(false);
                assert(self@.states =~= old(self)@.states.push(s));
                assert(self@.accepting =~= old(self)@.accepting.push(false));
                assert(self@.edges =~= old(self)@.edges);
                proof {
                    self@.lemma_index_of(i as int);
                }
                i
            },
        }
    }

    /// Declares `state`; nothing changes where it is declared already.
    pub fn add_state(&mut self, state: Stat)
        requires
            old(self)@.wf(),
        ensures
            final(self)@ == old(self)@.with_state(state),
            final(self)@.wf(),
    {
        self.register(state);
    }

    /// Declares each of `states`, in order.
    pub fn add_states<const N: usize>(&mut self, states: [Stat; N])
        requires
            old(self)@.wf(),
        ensures
            final(self)@ == old(self)@.with_states(states@),
            final(self)@.wf(),
    {
        let mut i: usize = 0;
        while i < N
            invariant
                self@.wf(),
                i <= N,
                states@.len() == N,
                self@ == old(self)@.with_states(states@.subrange(0, i as int)),
            decreases N - i,
        {
            self.register(states[i].duplicate());
            assert(states@.subrange(0, i + 1).drop_last() =~= states@.subrange(0, i as int));
            i += 1;
        }
        assert(states@.subrange(0, N as int) =~= states@);
    }

    /// Declares `state` and makes it accepting.
    pub fn add_accept_state(&mut self, state: Stat)
        requires
            old(self)@.wf(),
        ensures
            final(self)@ == old(self)@.with_accept_state(state),
            final(self)@.wf(),
    {
        let i = self.register(state);
        self.accepting.set(i, true);
        assert(self@.accepting =~= old(self)@.with_state(state).accepting.update(i as int, true));
        assert(self@.states =~= old(self)@.with_state(state).states);
        assert(self@.edges =~= old(self)@.with_state(state).edges);
    }

    /// Declares each of `states` and makes it accepting, in order.
    pub fn add_accept_states<const N: usize>(&mut self, states: [Stat; N])
        requires
            old(self)@.wf(),
        ensures
            final(self)@ == old(self)@.with_accept_states(states@),
            final(self)@.wf(),
    {
        let mut i: usize = 0;
        while i < N
            invariant
                self@.wf(),
                i <= N,
                states@.len() == N,
                self@ == old(self)@.with_accept_states(states@.subrange(0, i as int)),
            decreases N - i,
        {
            self.add_accept_state(states[i].duplicate());
            assert(states@.subrange(0, i + 1).drop_last() =~= states@.subrange(0, i as int));
            i += 1;
        }
        assert(states@.subrange(0, N as int) =~= states@);
    }

    fn add_transition(&mut self, from: Stat, by: Input<Token>, to: Stat)
        requires
            old(self)@.wf(),
        ensures
            final(self)@ == old(self)@.with_edge(from, by, to),
            final(self)@.wf(),
    {
        let a = self.register(from);
        let b = self.register(to);
        proof {
            self@.lemma_index_of(a as int);
        }
        let ghost mid = self@;
        self.edges.push(Edge { from: a, by, to: b });
        assert(self@.edges =~= mid.edges.push((a as int, by, b as int)));
        assert(self@.states =~= mid.states);
        assert(self@.accepting =~= mid.accepting);
    }

    /// Adds an edge labelled `by` from `from` to each of `to_states`.
    pub fn add_transitions<const N: usize>(&mut self, from: Stat, by: Input<Token>, to_states: [Stat; N])
        requires
            old(self)@.wf(),
        ensures
            final(self)@ == old(self)@.with_edges(from, by, to_states@),
            final(self)@.wf(),
    {
        self.register(from.duplicate());
        let mut i: usize = 0;
        while i < N
            invariant
                self@.wf(),
                i <= N,
                to_states@.len() == N,
                self@ == old(self)@.with_edges(from, by, to_states@.subrange(0, i as int)),
            decreases N - i,
        {
            self.add_transition(from.duplicate(), by.duplicate(), to_states[i].duplicate());
            assert(to_states@.subrange(0, i + 1).drop_last() =~= to_states@.subrange(0, i as int));
            i += 1;
        }
        assert(to_states@.subrange(0, N as int) =~= to_states@);
    }

    /// Adds an edge from `from` to `to` that consumes any one token.
    pub fn add_any_transition(&mut self, from: Stat, to: Stat)
        requires
            old(self)@.wf(),
        ensures
            final(self)@ == old(self)@.with_edge(from, Input::Any, to),
            final(self)@.wf(),
    {
        self.add_transition(from, Input::Any, to);
    }

    /// Adds an edge from `from` to each of `to_states` that consumes any one token.
    pub fn add_any_transitions<const N: usize>(&mut self, from: Stat, to_states: [Stat; N])
        requires
            old(self)@.wf(),
        ensures
            final(self)@ == old(self)@.with_edges(from, Input::Any, to_states@),
            final(self)@.wf(),
    {
        self.add_transitions(from, Input::Any, to_states);
    }

    /// Adds an edge from `from` to `to` that consumes no token.
    pub fn add_epsilon_transition(&mut self, from: Stat, to: Stat)
        requires
            old(self)@.wf(),
        ensures
            final(self)@ == old(self)@.with_edge(from, Input::Epsilon, to),
            final(self)@.wf(),
    {
        self.add_transition(from, Input::Epsilon, to);
    }

    /// Adds an edge from `from` to each of `to_states` that consumes no token.
    pub fn add_epsilon_transitions<const N: usize>(&mut self, from: Stat, to_states: [Stat; N])
        requires
            old(self)@.wf(),
        ensures
            final(self)@ == old(self)@.with_edges(from, Input::Epsilon, to_states@),
            final(self)@.wf(),
    {
        self.add_transitions(from, Input::Epsilon, to_states);
    }

    /// Adds an edge from `from` to `to` that consumes the token `by`.
    pub fn add_token_transition(&mut self, from: Stat, by: Token, to: Stat)
        requires
            old(self)@.wf(),
        ensures
            final(self)@ == old(self)@.with_edge(from, Input::Token(by), to),
            final(self)@.wf(),
    {
        self.add_transition(from, Input::Token(by), to);
    }

    /// Adds an edge from `from` to each of `to_states` that consumes the token `by`.
    pub fn add_token_transitions<const N: usize>(&mut self, from: Stat, by: Token, to_states: [Stat; N])
        requires
            old(self)@.wf(),
        ensures
            final(self)@ == old(self)@.with_edges(from, Input::Token(by), to_states@),
            final(self)@.wf(),
    {
        self.add_transitions(from, Input::Token(by), to_states);
    }

    pub fn initial_state(&self) -> (r: Stat)
        requires
            self@.wf(),
        ensures
            r == self@.states[0],
    {
        self.states[0].duplicate()
    }

    /// The distinct targets of the edges labelled `by` out of `from`.
    fn transitions_of(&self, from: &Stat, by: &Input<Token>) -> (r: Vec<Stat>)
        requires
            self@.wf(),
        ensures
            r@.no_duplicates(),
            forall|b: Stat| r@.contains(b) <==> self@.has_edge(*from, *by, b),
    {
        let n = self.states.len();
        let mut r: Vec<Stat> = Vec::new();
        let a = match self.find(from) {
            Some(a) => a,
            None => {
                return r;
            },
        };
        let mut seen = unmarked(n);
        let mut k: usize = 0;
        while k < self.edges.len()
            invariant
                self@.wf(),
                n == self@.len(),
                a < n,
                self@.states[a as int] == *from,
                seen@.len() == n,
                k <= self.edges@.len(),
                forall|j: int|
                    0 <= j < n ==> (seen@[j] <==> exists|q: int|
                        0 <= q < k && #[trigger] self@.edges[q] == (a as int, *by, j)),
                forall|b: Stat|
                    r@.contains(b) <==> exists|j: int| 0 <= j < n && seen@[j] && self@.states[j] == b,
                r@.no_duplicates(),
            decreases self.edges@.len() - k,
        {
            let e = &self.edges[k];
            assert(self@.edges[k as int] == (e.from as int, e.by, e.to as int));
            if e.from == a && e.by.same(by) && !seen[e.to] {
                let ghost old_r = r@;
                let ghost old_seen = seen@;
                assert(!r@.contains(self@.states[e.to as int]));
                seen.set(e.to, true);
                r.push(self.states[e.to].duplicate());
                let ghost x = self@.states[e.to as int];
                assert(r@ == old_r.push(x));
                assert forall|b: Stat| r@.contains(b) <==> exists|j: int|
                    0 <= j < n && seen@[j] && self@.states[j] == b by {
                    if old_r.contains(b) {
                        let i = choose|i: int| 0 <= i < old_r.len() && old_r[i] == b;
                        assert(r@[i] == b);
                        let j = choose|j: int| 0 <= j < n && old_seen[j] && self@.states[j] == b;
                        assert(seen@[j]);
                    }
                    if b == x {
                        assert(r@[old_r.len() as int] == b);
                        assert(seen@[e.to as int]);
                    }
                    if r@.contains(b) {
                        let i = choose|i: int| 0 <= i < r@.len() && r@[i] == b;
                        if i < old_r.len() {
                            assert(old_r[i] == b);
                        }
                    }
                    if exists|j: int| 0 <= j < n && seen@[j] && self@.states[j] == b {
                        let j = choose|j: int| 0 <= j < n && seen@[j] && self@.states[j] == b;
                        if j != e.to as int {
                            assert(old_seen[j]);
                            assert(old_r.contains(b));
                            let i = choose|i: int| 0 <= i < old_r.len() && old_r[i] == b;
                            assert(r@[i] == b);
                        } else {
                            assert(r@[old_r.len() as int] == b);
                        }
                    }
                }
            }
            k += 1;
        }
        assert forall|b: Stat| r@.contains(b) implies self@.has_edge(*from, *by, b) by {
            let j = choose|j: int| 0 <= j < n && seen@[j] && self@.states[j] == b;
            let q = choose|q: int| 0 <= q < k && #[trigger] self@.edges[q] == (a as int, *by, j);
            assert(self@.edge(a as int, *by, j));
        }
        assert forall|b: Stat| self@.has_edge(*from, *by, b) implies r@.contains(b) by {
            {
                let (i, j) = choose|i: int, j: int|
                    0 <= i < self@.len() && 0 <= j < self@.len() && self@.states[i] == *from
                        && self@.states[j] == b && #[trigger] self@.edge(i, *by, j);
                assert(i == a);
                let q = choose|q: int| 0 <= q < self@.edges.len() && #[trigger] self@.edges[q] == (i, *by, j);
                assert(seen@[j]);
            }
        }
        r
    }

    /// The distinct states that one wildcard edge leads to from `from`.
    pub fn transitions_by_any(&self, from: &Stat) -> (r: Vec<Stat>)
        requires
            self@.wf(),
        ensures
            r@.no_duplicates(),
            forall|b: Stat| r@.contains(b) <==> self@.has_edge(*from, Input::Any, b),
    {
        self.transitions_of(from, &Input::Any)
    }

    /// The distinct states that one epsilon edge leads to from `from`.
    pub fn transitions_by_epsilon(&self, from: &Stat) -> (r: Vec<Stat>)
        requires
            self@.wf(),
        ensures
            r@.no_duplicates(),
            forall|b: Stat| r@.contains(b) <==> self@.has_edge(*from, Input::Epsilon, b),
    {
        self.transitions_of(from, &Input::Epsilon)
    }

    /// The distinct states that one edge labelled `by` leads to from `from`.
    pub fn transitions_by_token(&self, from: &Stat, by: &Token) -> (r: Vec<Stat>)
        requires
            self@.wf(),
        ensures
            r@.no_duplicates(),
            forall|b: Stat| r@.contains(b) <==> self@.has_edge(*from, Input::Token(*by), b),
    {
        self.transitions_of(from, &Input::Token(by.duplicate()))
    }
}

impl<Stat: Symbol, Token: Symbol> Spec<Stat, Token> {
    /// The distinct tokens that label an edge: the alphabet of the table.
    pub fn tokens(&self) -> (r: Vec<Token>)
        requires
            self@.wf(),
        ensures
            r@.no_duplicates(),
            forall|t: Token| r@.contains(t) <==> self@.has_token(t),
    {
        let mut r: Vec<Token> = Vec::new();
        let mut k: usize = 0;
        while k < self.edges.len()
            invariant
                k <= self.edges@.len(),
                r@.no_duplicates(),
                forall|t: Token|
                    r@.contains(t) <==> exists|q: int|
                        0 <= q < k && (#[trigger] self@.edges[q]).1 == Input::Token(t),
            decreases self.edges@.len() - k,
        {
            let e = &self.edges[k];
            assert(self@.edges[k as int] == (e.from as int, e.by, e.to as int));
            let ghost old_r = r@;
            match &e.by {
                Input::Token(t) => {
                    if !contains(&r, t) {
                        r.push(t.duplicate());
                        assert(r@[old_r.len() as int] == *t);
                    }
                    assert forall|u: Token| r@.contains(u) <==> exists|q: int|
                        0 <= q < k + 1 && (#[trigger] self@.edges[q]).1 == Input::Token(u) by {
                        if r@.contains(u) {
                            let i = choose|i: int| 0 <= i < r@.len() && r@[i] == u;
                            if i < old_r.len() {
                                assert(old_r[i] == u);
                            }
                        }
                        if old_r.contains(u) {
                            let i = choose|i: int| 0 <= i < old_r.len() && old_r[i] == u;
                            assert(r@[i] == u);
                        }
                        if exists|q: int| 0 <= q < k + 1 && (#[trigger] self@.edges[q]).1 == Input::Token(u) {
                            let q = choose|q: int| 0 <= q < k + 1 && (#[trigger] self@.edges[q]).1 == Input::Token(u);
                            if q == k {
                                assert(u == *t);
                                assert(r@.contains(*t));
                            }
                        }
                    }
                },
                _ => {
                    assert forall|u: Token| r@.contains(u) <==> exists|q: int|
                        0 <= q < k + 1 && (#[trigger] self@.edges[q]).1 == Input::Token(u) by {
                        if exists|q: int| 0 <= q < k + 1 && (#[trigger] self@.edges[q]).1 == Input::Token(u) {
                            let q = choose|q: int| 0 <= q < k + 1 && (#[trigger] self@.edges[q]).1 == Input::Token(u);
                            assert(q != k);
                        }
                    }
                },
            }
            k += 1;
        }
        assert forall|t: Token| r@.contains(t) <==> self@.has_token(t) by {
            if self@.has_token(t) {
                let (a, b) = choose|a: int, b: int| #[trigger] self@.edge(a, Input::Token(t), b);
                let q = choose|q: int|
                    0 <= q < self@.edges.len() && #[trigger] self@.edges[q] == (a, Input::<Token>::Token(t), b);
                assert(self@.edges[q] == (a, Input::<Token>::Token(t), b));
            }
            if r@.contains(t) {
                let q = choose|q: int|
                    0 <= q < k && (#[trigger] self@.edges[q]).1 == Input::Token(t);
                let (a, b) = (self@.edges[q].0, self@.edges[q].2);
                assert(self@.edges[q] == (a, Input::Token(t), b));
                assert(self@.edge(a, Input::Token(t), b));
            }
        }
        r
    }

    /// Every declared state, the initial one first.
    pub fn all_states(&self) -> (r: Vec<Stat>)
        ensures
            r@ == self@.states,
    {
        let mut r: Vec<Stat> = Vec::new();
        let mut i: usize = 0;
        while i < self.states.len()
            invariant
                i <= self.states@.len(),
                r@ == self.states@.subrange(0, i as int),
            decreases self.states@.len() - i,
        {
            r.push(self.states[i].duplicate());
            i += 1;
            assert(r@ =~= self.states@.subrange(0, i as int));
        }
        assert(r@ =~= self.states@);
        r
    }

    /// The accepting states, each once.
    pub fn accept_states(&self) -> (r: Vec<Stat>)
        requires
            self@.wf(),
        ensures
            r@.no_duplicates(),
            forall|s: Stat| r@.contains(s) <==> self@.is_accept_state(s),
    {
        let mut r: Vec<Stat> = Vec::new();
        let mut i: usize = 0;
        while i < self.states.len()
            invariant
                self@.wf(),
                i <= self.states@.len(),
                r@.no_duplicates(),
                forall|s: Stat|
                    r@.contains(s) <==> exists|j: int|
                        0 <= j < i && self@.states[j] == s && #[trigger] self@.accepting[j],
            decreases self.states@.len() - i,
        {
            if self.accepting[i] {
                let ghost old_r = r@;
                let ghost x = self@.states[i as int];
                assert(!old_r.contains(x)) by {
                    if old_r.contains(x) {
                        let j = choose|j: int|
                            0 <= j < i && self@.states[j] == x && #[trigger] self@.accepting[j];
                    }
                }
                r.push(self.states[i].duplicate());
                assert forall|s: Stat| r@.contains(s) <==> exists|j: int|
                    0 <= j < i + 1 && self@.states[j] == s && #[trigger] self@.accepting[j] by {
                    if r@.contains(s) {
                        let p = choose|p: int| 0 <= p < r@.len() && r@[p] == s;
                        if p < old_r.len() {
                            assert(old_r[p] == s);
                        }
                    }
                    if old_r.contains(s) {
                        let p = choose|p: int| 0 <= p < old_r.len() && old_r[p] == s;
                        assert(r@[p] == s);
                    }
                    assert(r@[old_r.len() as int] == x);
                }
            }
            i += 1;
        }
        r
    }

    /// Whether `state` is a declared, accepting state.
    pub fn is_acceptable_state(&self, state: &Stat) -> (r: bool)
        requires
            self@.wf(),
        ensures
            r == self@.is_accept_state(*state),
    {
        match self.find(state) {
            Some(i) => self.accepting[i],
            None => false,
        }
    }

    /// Adds to the states that `mask` marks all that epsilon edges lead to,
    /// until nothing new is reached.
    fn close(&self, mask: Vec<bool>) -> (r: Vec<bool>)
        requires
            self@.wf(),
            mask@.len() == self@.len(),
        ensures
            r@.len() == self@.len(),
            mask_set(r@) == self@.closure(mask_set(mask@)),
    {
        let ghost seed = mask_set(mask@);
        let ghost m = self@;
        let mut cur = mask;
        let n = cur.len();
        proof {
            m.lemma_closure_grows(seed);
        }
        loop
            invariant
                self@ == m,
                m.wf(),
                cur@.len() == n,
                n == m.len(),
                seed == mask_set(mask@),
                seed.subset_of(mask_set(cur@)),
                mask_set(cur@).subset_of(m.closure(seed)),
            decreases n - mask_set(cur@).len(),
        {
            let ghost before = cur@;
            proof {
                lemma_mask_set_bounded(before);
            }
            let mut changed = false;
            let mut k: usize = 0;
            while k < self.edges.len()
                invariant
                    self@ == m,
                    m.wf(),
                    cur@.len() == n,
                    n == m.len(),
                    k <= m.edges.len(),
                    mask_set(before).finite(),
                    seed.subset_of(mask_set(cur@)),
                    mask_set(before).subset_of(mask_set(cur@)),
                    mask_set(cur@).subset_of(m.closure(seed)),
                    mask_set(cur@).finite(),
                    !changed ==> cur@ == before,
                    changed ==> mask_set(cur@).len() > mask_set(before).len(),
                    !changed ==> forall|q: int|
                        0 <= q < k && (#[trigger] m.edges[q]).1 == Input::<Token>::Epsilon
                            && cur@[m.edges[q].0] ==> cur@[m.edges[q].2],
                decreases m.edges.len() - k,
            {
                let e = &self.edges[k];
                assert(m.edges[k as int] == (e.from as int, e.by, e.to as int));
                match e.by {
                    Input::Epsilon => {
                        if cur[e.from] && !cur[e.to] {
                            proof {
                                lemma_mask_set_mark(cur@, e.to as int);
                                assert(m.edge(e.from as int, Input::Epsilon, e.to as int));
                                m.lemma_closure_step(seed, e.from as int, e.to as int);
                                assert(!mask_set(cur@).contains(e.to as int));
                            }
                            cur.set(e.to, true);
                            changed = true;
                        }
                    },
                    _ => {},
                }
                k += 1;
            }
            if !changed {
                proof {
                    assert forall|c: int, d: int|
                        mask_set(cur@).contains(c) && m.edge(c, Input::Epsilon, d) implies mask_set(
                        cur@,
                    ).contains(d) by {
                        let q = choose|q: int|
                            0 <= q < m.edges.len() && #[trigger] m.edges[q] == (c, Input::<Token>::Epsilon, d);
                    }
                    m.lemma_closure_least(seed, mask_set(cur@));
                    assert(mask_set(cur@) =~= m.closure(seed));
                    assert(seed == mask_set(mask@));
                }
                return cur;
            }
            proof {
                lemma_mask_set_bounded(cur@);
            }
        }
    }

    /// The frontier before any token is read: the closure of the initial state.
    pub fn initial_frontier(&self) -> (r: Vec<bool>)
        requires
            self@.wf(),
        ensures
            r@.len() == self@.len(),
            mask_set(r@) == self@.start(),
    {
        let mut m = unmarked(self.states.len());
        m.set(0, true);
        assert(mask_set(m@) =~= set![0int]);
        self.close(m)
    }

    /// The frontier after `current` reads `by`: the closure of the states that
    /// a wildcard edge or an edge labelled `by` leads to.
    pub fn next_frontier(&self, current: &Vec<bool>, by: &Token) -> (r: Vec<bool>)
        requires
            self@.wf(),
            current@.len() == self@.len(),
        ensures
            r@.len() == self@.len(),
            mask_set(r@) == self@.advance(mask_set(current@), *by),
    {
        let ghost m = self@;
        let ghost x = mask_set(current@);
        let n = self.states.len();
        let mut next = unmarked(n);
        let mut k: usize = 0;
        while k < self.edges.len()
            invariant
                self@ == m,
                m.wf(),
                n == m.len(),
                current@.len() == n,
                next@.len() == n,
                k <= m.edges.len(),
                forall|b: int|
                    0 <= b < n ==> (next@[b] <==> exists|q: int|
                        0 <= q < k && current@[(#[trigger] m.edges[q]).0] && m.edges[q].2 == b
                            && (m.edges[q].1 == Input::<Token>::Any || m.edges[q].1
                            == Input::Token(*by))),
            decreases m.edges.len() - k,
        {
            let e = &self.edges[k];
            assert(m.edges[k as int] == (e.from as int, e.by, e.to as int));
            let fits = match &e.by {
                Input::Any => true,
                Input::Token(t) => t.same(by),
                Input::Epsilon => false,
            };
            if fits && current[e.from] {
                next.set(e.to, true);
            }
            k += 1;
        }
        assert forall|b: int| mask_set(next@).contains(b) <==> m.step(x, *by).contains(b) by {
            if mask_set(next@).contains(b) {
                let q = choose|q: int|
                    0 <= q < k && current@[(#[trigger] m.edges[q]).0] && m.edges[q].2 == b && (
                    m.edges[q].1 == Input::<Token>::Any || m.edges[q].1 == Input::Token(*by));
                let a = m.edges[q].0;
                assert(m.edges[q] == (a, m.edges[q].1, b));
                assert(m.moves(a, *by, b));
            }
            if m.step(x, *by).contains(b) {
                let a = choose|a: int| x.contains(a) && #[trigger] m.moves(a, *by, b);
                let q = choose|q: int|
                    0 <= q < m.edges.len() && (#[trigger] m.edges[q] == (a, Input::<Token>::Any, b)
                        || m.edges[q] == (a, Input::Token(*by), b));
                assert(0 <= b < n);
            }
        }
        assert(mask_set(next@) =~= m.step(x, *by));
        self.close(next)
    }

    /// Whether the frontier `current` holds an accepting state.
    pub fn frontier_accepts(&self, current: &Vec<bool>) -> (r: bool)
        requires
            self@.wf(),
            current@.len() == self@.len(),
        ensures
            r == self@.accepting_in(mask_set(current@)),
    {
        let mut i: usize = 0;
        while i < current.len()
            invariant
                self@.wf(),
                current@.len() == self@.len(),
                i <= current@.len(),
                forall|j: int| 0 <= j < i ==> !(current@[j] && self@.accepting[j]),
            decreases current@.len() - i,
        {
            if current[i] && self.accepting[i] {
                assert(mask_set(current@).contains(i as int));
                return true;
            }
            i += 1;
        }
        false
    }

    /// Runs the table over `input` from its initial frontier and tells
    /// whether the final frontier holds an accepting state.
    pub fn run(&self, input: &[Token]) -> (r: bool)
        requires
            self@.wf(),
        ensures
            r == self@.accepts(input@),
    {
        let mut cur = self.initial_frontier();
        let mut i: usize = 0;
        while i < input.len()
            invariant
                self@.wf(),
                i <= input@.len(),
                cur@.len() == self@.len(),
                mask_set(cur@) == self@.run_from(self@.start(), input@.subrange(0, i as int)),
            decreases input@.len() - i,
        {
            proof {
                self@.lemma_run_from_push(self@.start(), input@.subrange(0, i as int), input@[i as int]);
                assert(input@.subrange(0, i as int).push(input@[i as int]) =~= input@.subrange(0, i + 1));
            }
            cur = self.next_frontier(&cur, &input[i]);
            i += 1;
        }
        assert(input@.subrange(0, input@.len() as int) =~= input@);
        self.frontier_accepts(&cur)
    }
}

impl<Stat: Symbol, Token: Symbol> Spec<Stat, Token> {
    /// The values of the states that `mask` marks, in declaration order.
    pub fn list_subset(&self, mask: &Vec<bool>) -> (r: Vec<Stat>)
        requires
            self@.wf(),
            mask@.len() == self@.len(),
        ensures
            r@ == self@.subset_values(mask_set(mask@)),
    {
        let mut r: Vec<Stat> = Vec::new();
        let mut i: usize = 0;
        while i < mask.len()
            invariant
                self@.wf(),
                mask@.len() == self@.len(),
                i <= mask@.len(),
                r@ == self@.listing(mask_set(mask@), i as int),
            decreases mask@.len() - i,
        {
            if mask[i] {
                r.push(self.states[i].duplicate());
            }
            i += 1;
        }
        r
    }
}

} // verus!
