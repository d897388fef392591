use vstd::prelude::*;
use vstd::set_lib::*;

verus! {

/// What an edge consumes: nothing, any one token, or one given token.
#[derive(Clone, Debug)]
pub enum Input<Token> {
    Epsilon,
    Any,
    Token(Token),
}

/// The mathematical content of a nondeterministic automaton. States are
/// numbered by their position in `states` (the initial state is number 0),
/// `accepting[i]` tells whether state `i` accepts, and each edge is a triple
/// (source number, input, target number).
pub struct NfaModel<Stat, Token> {
    pub states: Seq<Stat>,
    pub accepting: Seq<bool>,
    pub edges: Seq<(int, Input<Token>, int)>,
}

/// The state numbers that a frontier mask marks.
pub open spec fn mask_set(m: Seq<bool>) -> Set<int> {
    Set::new(|i: int| 0 <= i < m.len() && m[i])
}

/// A mask marks a finite set of at most as many states as it is long.
pub proof fn lemma_mask_set_bounded(m: Seq<bool>)
    ensures
        mask_set(m).finite(),
        mask_set(m).len() <= m.len(),
{
    lemma_int_range(0, m.len() as int);
    assert(mask_set(m).subset_of(set_int_range(0, m.len() as int)));
    lemma_len_subset(mask_set(m), set_int_range(0, m.len() as int));
}

/// Marking one more state adds it to the set that the mask stands for.
pub proof fn lemma_mask_set_mark(m: Seq<bool>, i: int)
    requires
        0 <= i < m.len(),
    ensures
        mask_set(m.update(i, true)) == mask_set(m).insert(i),
{
    assert(mask_set(m.update(i, true)) =~= mask_set(m).insert(i));
}

impl<Stat, Token> NfaModel<Stat, Token> {
    pub open spec fn len(self) -> int {
        self.states.len() as int
    }

    /// At least the initial state, one flag per state, distinct state values,
    /// and edges between numbered states only.
    pub open spec fn wf(self) -> bool {
        &&& self.states.len() >= 1
        &&& self.accepting.len() == self.states.len()
        &&& forall|i: int, j: int|
            0 <= i < self.len() && 0 <= j < self.len() && i != j ==> self.states[i]
                != self.states[j]
        &&& forall|k: int|
            0 <= k < self.edges.len() ==> 0 <= (#[trigger] self.edges[k]).0 < self.len() && 0
                <= self.edges[k].2 < self.len()
    }

    pub open spec fn edge(self, a: int, by: Input<Token>, b: int) -> bool {
        exists|k: int| 0 <= k < self.edges.len() && #[trigger] self.edges[k] == (a, by, b)
    }

    /// A path of `n` epsilon edges leads from `a` to `b`.
    pub open spec fn eps_path(self, a: int, b: int, n: nat) -> bool
        decreases n,
    {
        if n == 0 {
            a == b
        } else {
            exists|c: int|
                #[trigger] self.edge(a, Input::Epsilon, c) && self.eps_path(c, b, (n - 1) as nat)
        }
    }

    pub open spec fn eps_reach(self, a: int, b: int) -> bool {
        exists|n: nat| #[trigger] self.eps_path(a, b, n)
    }

    /// Every state reachable from `x` by epsilon edges alone, `x` included.
    pub open spec fn closure(self, x: Set<int>) -> Set<int> {
        Set::new(|b: int| exists|a: int| x.contains(a) && #[trigger] self.eps_reach(a, b))
    }

    /// State `a` moves to state `b` on token `t`.
    pub open spec fn moves(self, a: int, t: Token, b: int) -> bool {
        self.edge(a, Input::Any, b) || self.edge(a, Input::Token(t), b)
    }

    /// The states that token `t` leads to from `x`, before epsilon edges.
    pub open spec fn step(self, x: Set<int>, t: Token) -> Set<int> {
        Set::new(|b: int| exists|a: int| x.contains(a) && #[trigger] self.moves(a, t, b))
    }

    /// The frontier after frontier `x` reads token `t`.
    pub open spec fn advance(self, x: Set<int>, t: Token) -> Set<int> {
        self.closure(self.step(x, t))
    }

    /// The frontier before any token is read.
    pub open spec fn start(self) -> Set<int> {
        self.closure(set![0int])
    }

    /// The frontier after `x` reads the tokens of `s` in order.
    pub open spec fn run_from(self, x: Set<int>, s: Seq<Token>) -> Set<int>
        decreases s.len(),
    {
        if s.len() == 0 {
            x
        } else {
            self.run_from(self.advance(x, s[0]), s.drop_first())
        }
    }

    /// The frontier holds an accepting state.
    pub open spec fn accepting_in(self, x: Set<int>) -> bool {
        exists|i: int| 0 <= i < self.len() && x.contains(i) && #[trigger] self.accepting[i]
    }

    /// The automaton accepts the token sequence `s`.
    pub open spec fn accepts(self, s: Seq<Token>) -> bool {
        self.accepting_in(self.run_from(self.start(), s))
    }

    /// Value-level edge: an edge labelled `by` leads from state value `a` to
    /// state value `b`.
    pub open spec fn has_edge(self, a: Stat, by: Input<Token>, b: Stat) -> bool {
        exists|i: int, j: int|
            0 <= i < self.len() && 0 <= j < self.len() && self.states[i] == a && self.states[j]
                == b && #[trigger] self.edge(i, by, j)
    }

    pub open spec fn is_state(self, s: Stat) -> bool {
        self.states.contains(s)
    }

    pub open spec fn is_accept_state(self, s: Stat) -> bool {
        exists|i: int| 0 <= i < self.len() && self.states[i] == s && #[trigger] self.accepting[i]
    }

    /// Some labelled edge carries token `t`.
    pub open spec fn has_token(self, t: Token) -> bool {
        exists|a: int, b: int| #[trigger] self.edge(a, Input::Token(t), b)
    }

    /// Some edge consumes any token.
    pub open spec fn has_wildcard(self) -> bool {
        exists|a: int, b: int| #[trigger] self.edge(a, Input::Any, b)
    }

    /// The values of the states among the first `i` whose numbers are in
    /// `x`, in the order of their numbers.
    pub open spec fn listing(self, x: Set<int>, i: int) -> Seq<Stat>
        decreases i,
    {
        if i <= 0 {
            Seq::empty()
        } else if x.contains(i - 1) {
            self.listing(x, i - 1).push(self.states[i - 1])
        } else {
            self.listing(x, i - 1)
        }
    }

    /// The canonical listing of the state set `x`: its values in the order
    /// in which the states were declared.
    pub open spec fn subset_values(self, x: Set<int>) -> Seq<Stat> {
        self.listing(x, self.len())
    }

    /// The number of state value `s`.
    pub open spec fn index_of(self, s: Stat) -> int {
        self.states.index_of(s)
    }

    /// The model with `s` registered as a state (unchanged where it is one).
    pub open spec fn with_state(self, s: Stat) -> Self {
        if self.states.contains(s) {
            self
        } else {
            NfaModel {
                states: self.states.push(s),
                accepting: self.accepting.push(false),
                edges: self.edges,
            }
        }
    }

    /// The model with every value of `ss` registered as a state, in order.
    pub open spec fn with_states(self, ss: Seq<Stat>) -> Self
        decreases ss.len(),
    {
        if ss.len() == 0 {
            self
        } else {
            self.with_states(ss.drop_last()).with_state(ss.last())
        }
    }

    /// The model with `s` registered as an accepting state.
    pub open spec fn with_accept_state(self, s: Stat) -> Self {
        let m = self.with_state(s);
        NfaModel { accepting: m.accepting.update(m.index_of(s), true), ..m }
    }

    /// The model with every value of `ss` registered as an accepting state.
    pub open spec fn with_accept_states(self, ss: Seq<Stat>) -> Self
        decreases ss.len(),
    {
        if ss.len() == 0 {
            self
        } else {
            self.with_accept_states(ss.drop_last()).with_accept_state(ss.last())
        }
    }

    /// The model with both endpoints registered and the edge added.
    pub open spec fn with_edge(self, from: Stat, by: Input<Token>, to: Stat) -> Self {
        let m = self.with_state(from).with_state(to);
        NfaModel { edges: m.edges.push((m.index_of(from), by, m.index_of(to))), ..m }
    }

    /// The model with an edge labelled `by` from `from` to each value of `tos`.
    pub open spec fn with_edges(self, from: Stat, by: Input<Token>, tos: Seq<Stat>) -> Self
        decreases tos.len(),
    {
        if tos.len() == 0 {
            self.with_state(from)
        } else {
            self.with_edges(from, by, tos.drop_last()).with_edge(from, by, tos.last())
        }
    }

    /// In a well-formed model a state value's number is its position.
    pub proof fn lemma_index_of(self, i: int)
        requires
            self.wf(),
            0 <= i < self.len(),
        ensures
            self.index_of(self.states[i]) == i,
    {
        assert(self.states[i] == self.states[i]);
        assert(self.states.contains(self.states[i]));
    }

    /// Registering a state adds its value and changes neither edges nor
    /// accepting states.
    pub proof fn lemma_with_state(self, s: Stat)
        requires
            self.wf(),
        ensures
            self.with_state(s).wf(),
            self.with_state(s).states[0] == self.states[0],
            self.with_state(s).states.contains(s),
            forall|x: Stat| #[trigger] self.with_state(s).is_state(x) <==> self.is_state(x) || x == s,
            forall|x: Stat| #[trigger]
                self.with_state(s).is_accept_state(x) <==> self.is_accept_state(x),
            forall|a: Stat, by: Input<Token>, b: Stat| #[trigger]
                self.with_state(s).has_edge(a, by, b) <==> self.has_edge(a, by, b),
    {
        let m = self.with_state(s);
        if !self.states.contains(s) {
            assert(m.states[self.len()] == s);
            assert forall|x: Stat| #[trigger] m.is_state(x) <==> self.is_state(x) || x == s by {
                if m.is_state(x) {
                    let i = choose|i: int| 0 <= i < m.states.len() && m.states[i] == x;
                    if i < self.len() {
                        assert(self.states[i] == x);
                    }
                }
                if self.is_state(x) {
                    let i = choose|i: int| 0 <= i < self.states.len() && self.states[i] == x;
                    assert(m.states[i] == x);
                }
            }
            assert forall|x: Stat| #[trigger] m.is_accept_state(x) <==> self.is_accept_state(x) by {
                if m.is_accept_state(x) {
                    let i = choose|i: int| 0 <= i < m.len() && m.states[i] == x && #[trigger] m.accepting[i];
                    assert(i < self.len());
                    assert(self.accepting[i]);
                }
                if self.is_accept_state(x) {
                    let i = choose|i: int| 0 <= i < self.len() && self.states[i] == x && #[trigger] self.accepting[i];
                    assert(m.accepting[i]);
                }
            }
            assert forall|a: Stat, by: Input<Token>, b: Stat| #[trigger]
                m.has_edge(a, by, b) <==> self.has_edge(a, by, b) by {
                if m.has_edge(a, by, b) {
                    let (i, j) = choose|i: int, j: int|
                        0 <= i < m.len() && 0 <= j < m.len() && m.states[i] == a && m.states[j] == b
                            && #[trigger] m.edge(i, by, j);
                    let k = choose|k: int| 0 <= k < m.edges.len() && #[trigger] m.edges[k] == (i, by, j);
                    assert(self.edges[k] == (i, by, j));
                    assert(self.edge(i, by, j));
                }
                if self.has_edge(a, by, b) {
                    let (i, j) = choose|i: int, j: int|
                        0 <= i < self.len() && 0 <= j < self.len() && self.states[i] == a
                            && self.states[j] == b && #[trigger] self.edge(i, by, j);
                    let k = choose|k: int| 0 <= k < self.edges.len() && #[trigger] self.edges[k] == (i, by, j);
                    assert(m.edges[k] == (i, by, j));
                    assert(m.edge(i, by, j));
                }
            }
        } else {
            assert(m.states.contains(s));
        }
    }

    /// Making a state accepting adds its value to the states and to the
    /// accepting states, and changes no edge.
    pub proof fn lemma_with_accept_state(self, s: Stat)
        requires
            self.wf(),
        ensures
            self.with_accept_state(s).wf(),
            self.with_accept_state(s).states[0] == self.states[0],
            forall|x: Stat| #[trigger]
                self.with_accept_state(s).is_state(x) <==> self.is_state(x) || x == s,
            forall|x: Stat| #[trigger]
                self.with_accept_state(s).is_accept_state(x) <==> self.is_accept_state(x) || x == s,
            forall|a: Stat, by: Input<Token>, b: Stat| #[trigger]
                self.with_accept_state(s).has_edge(a, by, b) <==> self.has_edge(a, by, b),
    {
        let w = self.with_state(s);
        self.lemma_with_state(s);
        let m = self.with_accept_state(s);
        let p = w.index_of(s);
        assert(w.states.contains(s));
        assert(0 <= p < w.len() && w.states[p] == s);
        assert(m.states == w.states && m.edges == w.edges);
        assert forall|x: Stat| #[trigger] m.is_state(x) <==> w.is_state(x) by {
        }
        assert forall|x: Stat| #[trigger] m.is_accept_state(x) <==> self.is_accept_state(x) || x == s by {
            if m.is_accept_state(x) {
                let i = choose|i: int| 0 <= i < m.len() && m.states[i] == x && #[trigger] m.accepting[i];
                if i != p {
                    assert(w.accepting[i]);
                    assert(w.is_accept_state(x));
                }
            }
            if x == s {
                assert(m.accepting[p]);
            }
            if w.is_accept_state(x) {
                let i = choose|i: int| 0 <= i < w.len() && w.states[i] == x && #[trigger] w.accepting[i];
                assert(m.accepting[i]);
            }
        }
        assert forall|a: Stat, by: Input<Token>, b: Stat| #[trigger]
            m.has_edge(a, by, b) <==> w.has_edge(a, by, b) by {
            if m.has_edge(a, by, b) {
                let (i, j) = choose|i: int, j: int|
                    0 <= i < m.len() && 0 <= j < m.len() && m.states[i] == a && m.states[j] == b
                        && #[trigger] m.edge(i, by, j);
                assert(w.edge(i, by, j));
            }
            if w.has_edge(a, by, b) {
                let (i, j) = choose|i: int, j: int|
                    0 <= i < w.len() && 0 <= j < w.len() && w.states[i] == a && w.states[j] == b
                        && #[trigger] w.edge(i, by, j);
                assert(m.edge(i, by, j));
            }
        }
    }

    /// Adding an edge adds its endpoints to the states and the edge to the
    /// edges, and changes no accepting state.
    pub proof fn lemma_with_edge(self, f: Stat, by: Input<Token>, t: Stat)
        requires
            self.wf(),
        ensures
            self.with_edge(f, by, t).wf(),
            self.with_edge(f, by, t).states[0] == self.states[0],
            forall|x: Stat| #[trigger]
                self.with_edge(f, by, t).is_state(x) <==> self.is_state(x) || x == f || x == t,
            forall|x: Stat| #[trigger]
                self.with_edge(f, by, t).is_accept_state(x) <==> self.is_accept_state(x),
            forall|a: Stat, c: Input<Token>, b: Stat| #[trigger]
                self.with_edge(f, by, t).has_edge(a, c, b) <==> self.has_edge(a, c, b) || (a == f
                    && c == by && b == t),
    {
        let w1 = self.with_state(f);
        self.lemma_with_state(f);
        let w = w1.with_state(t);
        w1.lemma_with_state(t);
        let pf = w.index_of(f);
        let pt = w.index_of(t);
        assert(w1.is_state(f));
        assert(w.is_state(f));
        assert(w.states.contains(t));
        let m = self.with_edge(f, by, t);
        assert(m.edges == w.edges.push((pf, by, pt)));
        assert(m.states == w.states && m.accepting == w.accepting);
        assert(m.wf()) by {
            assert forall|k: int| 0 <= k < m.edges.len() implies 0 <= (#[trigger] m.edges[k]).0 < m.len()
                && 0 <= m.edges[k].2 < m.len() by {
                if k < w.edges.len() {
                    assert(m.edges[k] == w.edges[k]);
                }
            }
        }
        assert forall|x: Stat| #[trigger] m.is_state(x) <==> w.is_state(x) by {
        }
        assert forall|x: Stat| #[trigger] m.is_accept_state(x) <==> w.is_accept_state(x) by {
            if m.is_accept_state(x) {
                let i = choose|i: int| 0 <= i < m.len() && m.states[i] == x && #[trigger] m.accepting[i];
                assert(w.accepting[i]);
            }
            if w.is_accept_state(x) {
                let i = choose|i: int| 0 <= i < w.len() && w.states[i] == x && #[trigger] w.accepting[i];
                assert(m.accepting[i]);
            }
        }
        assert forall|a: Stat, c: Input<Token>, b: Stat| #[trigger]
            m.has_edge(a, c, b) <==> w.has_edge(a, c, b) || (a == f && c == by && b == t) by {
            if m.has_edge(a, c, b) {
                let (i, j) = choose|i: int, j: int|
                    0 <= i < m.len() && 0 <= j < m.len() && m.states[i] == a && m.states[j] == b
                        && #[trigger] m.edge(i, c, j);
                let k = choose|k: int| 0 <= k < m.edges.len() && #[trigger] m.edges[k] == (i, c, j);
                if k < w.edges.len() {
                    assert(w.edges[k] == m.edges[k]);
                    assert(w.edge(i, c, j));
                }
            }
            if w.has_edge(a, c, b) {
                let (i, j) = choose|i: int, j: int|
                    0 <= i < w.len() && 0 <= j < w.len() && w.states[i] == a && w.states[j] == b
                        && #[trigger] w.edge(i, c, j);
                let k = choose|k: int| 0 <= k < w.edges.len() && #[trigger] w.edges[k] == (i, c, j);
                assert(m.edges[k] == (i, c, j));
                assert(m.edge(i, c, j));
            }
            if a == f && c == by && b == t {
                assert(m.edges[w.edges.len() as int] == (pf, by, pt));
                assert(m.edge(pf, by, pt));
            }
        }
    }

    /// An epsilon path can be lengthened by one epsilon edge at its end.
    pub proof fn lemma_eps_path_extend(self, a: int, b: int, c: int, n: nat)
        requires
            self.eps_path(a, b, n),
            self.edge(b, Input::Epsilon, c),
        ensures
            self.eps_path(a, c, n + 1),
        decreases n,
    {
        if n == 0 {
            assert(self.eps_path(c, c, 0));
        } else {
            let d = choose|d: int|
                #[trigger] self.edge(a, Input::Epsilon, d) && self.eps_path(d, b, (n - 1) as nat);
            self.lemma_eps_path_extend(d, b, c, (n - 1) as nat);
        }
    }

    /// A set closed under epsilon edges holds whatever an epsilon path leads
    /// to from one of its members.
    pub proof fn lemma_closed_holds_path(self, x: Set<int>, a: int, b: int, n: nat)
        requires
            x.contains(a),
            self.eps_path(a, b, n),
            forall|c: int, d: int| x.contains(c) && self.edge(c, Input::Epsilon, d) ==> x.contains(d),
        ensures
            x.contains(b),
        decreases n,
    {
        if n > 0 {
            let c = choose|c: int|
                #[trigger] self.edge(a, Input::Epsilon, c) && self.eps_path(c, b, (n - 1) as nat);
            self.lemma_closed_holds_path(x, c, b, (n - 1) as nat);
        }
    }

    /// The closure of a set holds the set.
    pub proof fn lemma_closure_grows(self, x: Set<int>)
        ensures
            x.subset_of(self.closure(x)),
    {
        assert forall|a: int| x.contains(a) implies self.closure(x).contains(a) by {
            assert(self.eps_path(a, a, 0));
            assert(self.eps_reach(a, a));
        }
    }

    /// A set that holds `x` and is closed under epsilon edges holds the
    /// closure of `x`.
    pub proof fn lemma_closure_least(self, x: Set<int>, y: Set<int>)
        requires
            x.subset_of(y),
            forall|c: int, d: int| y.contains(c) && self.edge(c, Input::Epsilon, d) ==> y.contains(d),
        ensures
            self.closure(x).subset_of(y),
    {
        assert forall|b: int| self.closure(x).contains(b) implies y.contains(b) by {
            let a = choose|a: int| x.contains(a) && #[trigger] self.eps_reach(a, b);
            let n = choose|n: nat| #[trigger] self.eps_path(a, b, n);
            self.lemma_closed_holds_path(y, a, b, n);
        }
    }

    /// An epsilon edge out of the closure of `x` stays inside it.
    pub proof fn lemma_closure_step(self, x: Set<int>, c: int, d: int)
        requires
            self.closure(x).contains(c),
            self.edge(c, Input::Epsilon, d),
        ensures
            self.closure(x).contains(d),
    {
        let a = choose|a: int| x.contains(a) && #[trigger] self.eps_reach(a, c);
        let n = choose|n: nat| #[trigger] self.eps_path(a, c, n);
        self.lemma_eps_path_extend(a, c, d, n);
        assert(self.eps_reach(a, d));
    }

    /// Nothing is reached from the empty frontier.
    pub proof fn lemma_run_from_empty(self, s: Seq<Token>)
        ensures
            self.run_from(Set::empty(), s) == Set::<int>::empty(),
        decreases s.len(),
    {
        if s.len() > 0 {
            assert(self.step(Set::empty(), s[0]) =~= Set::empty());
            assert(self.closure(Set::empty()) =~= Set::empty());
            self.lemma_run_from_empty(s.drop_first());
        }
    }

    /// Reading one more token advances the frontier once more.
    pub proof fn lemma_run_from_push(self, x: Set<int>, s: Seq<Token>, t: Token)
        ensures
            self.run_from(x, s.push(t)) == self.advance(self.run_from(x, s), t),
        decreases s.len(),
    {
        if s.len() == 0 {
            assert(s.push(t).drop_first() =~= Seq::<Token>::empty());
            assert(s.push(t)[0] == t);
            let e = s.push(t).drop_first();
            assert(self.run_from(self.advance(x, t), e) == self.advance(x, t));
            assert(self.run_from(x, s) == x);
        } else {
            assert(s.push(t).drop_first() =~= s.drop_first().push(t));
            assert(s.push(t)[0] == s[0]);
            self.lemma_run_from_push(self.advance(x, s[0]), s.drop_first(), t);
            assert(self.run_from(x, s) == self.run_from(self.advance(x, s[0]), s.drop_first()));
        }
    }
}

} // verus!
