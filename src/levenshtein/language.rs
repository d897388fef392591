use vstd::prelude::*;
use crate::nfa::{Input, NfaModel};
use super::def::min3;
use super::machine::{is_levenshtein_nfa, lev_edge};

verus! {

/// The Levenshtein distance between the first `i` tokens of `p` and the
/// first `j` tokens of `c`: the fewest insertions, deletions and
/// substitutions, each counting one, that turn one into the other.
pub open spec fn prefix_distance(p: Seq<u8>, c: Seq<u8>, i: nat, j: nat) -> int
    decreases i + j,
{
    if i == 0 {
        j as int
    } else if j == 0 {
        i as int
    } else {
        let change = if p[i - 1] == c[j - 1] {
            0int
        } else {
            1int
        };
        min3(
            prefix_distance(p, c, (i - 1) as nat, (j - 1) as nat) + change,
            prefix_distance(p, c, (i - 1) as nat, j) + 1,
            prefix_distance(p, c, i, (j - 1) as nat) + 1,
        )
    }
}

/// The Levenshtein distance between `p` and `c`.
pub open spec fn edit_distance(p: Seq<u8>, c: Seq<u8>) -> int {
    prefix_distance(p, c, p.len(), c.len())
}

/// The distance between two prefixes lies between 0 and their two lengths
/// together.
pub proof fn lemma_prefix_distance_bounds(p: Seq<u8>, c: Seq<u8>, i: nat, j: nat)
    ensures
        0 <= prefix_distance(p, c, i, j) <= i + j,
    decreases i + j,
{
    if i > 0 && j > 0 {
        lemma_prefix_distance_bounds(p, c, (i - 1) as nat, (j - 1) as nat);
        lemma_prefix_distance_bounds(p, c, (i - 1) as nat, j);
        lemma_prefix_distance_bounds(p, c, i, (j - 1) as nat);
    }
}

/// Some edit script of cost exactly `e` turns the first `i` tokens of `p`
/// into the first `j` tokens of `c`. Its last step is a match (cost 0), a
/// substitution, an insertion or a deletion (cost 1 each); a substitution
/// may put back the same token.
pub open spec fn script(p: Seq<u8>, c: Seq<u8>, i: nat, j: nat, e: nat) -> bool
    decreases i + j,
{
    if i == 0 && j == 0 {
        e == 0
    } else {
        ||| i > 0 && j > 0 && p[i - 1] == c[j - 1] && script(p, c, (i - 1) as nat, (j - 1) as nat, e)
        ||| i > 0 && j > 0 && e > 0 && script(p, c, (i - 1) as nat, (j - 1) as nat, (e - 1) as nat)
        ||| j > 0 && e > 0 && script(p, c, i, (j - 1) as nat, (e - 1) as nat)
        ||| i > 0 && e > 0 && script(p, c, (i - 1) as nat, j, (e - 1) as nat)
    }
}

/// A script whose last step reads a token of `c` (or the empty script).
pub open spec fn consuming(p: Seq<u8>, c: Seq<u8>, i: nat, j: nat, e: nat) -> bool {
    ||| i == 0 && j == 0 && e == 0
    ||| i > 0 && j > 0 && p[i - 1] == c[j - 1] && script(p, c, (i - 1) as nat, (j - 1) as nat, e)
    ||| i > 0 && j > 0 && e > 0 && script(p, c, (i - 1) as nat, (j - 1) as nat, (e - 1) as nat)
    ||| j > 0 && e > 0 && script(p, c, i, (j - 1) as nat, (e - 1) as nat)
}

proof fn lemma_script_split(p: Seq<u8>, c: Seq<u8>, i: nat, j: nat, e: nat)
    ensures
        script(p, c, i, j, e) == (consuming(p, c, i, j, e) || (i > 0 && e > 0 && script(
            p,
            c,
            (i - 1) as nat,
            j,
            (e - 1) as nat,
        ))),
{
}

proof fn lemma_distance_steps(p: Seq<u8>, c: Seq<u8>, i: nat, j: nat)
    ensures
        i > 0 ==> prefix_distance(p, c, i, j) <= prefix_distance(p, c, (i - 1) as nat, j) + 1,
        j > 0 ==> prefix_distance(p, c, i, j) <= prefix_distance(p, c, i, (j - 1) as nat) + 1,
        i > 0 && j > 0 ==> prefix_distance(p, c, i, j) <= prefix_distance(
            p,
            c,
            (i - 1) as nat,
            (j - 1) as nat,
        ) + 1,
        i > 0 && j > 0 && p[i - 1] == c[j - 1] ==> prefix_distance(p, c, i, j) <= prefix_distance(
            p,
            c,
            (i - 1) as nat,
            (j - 1) as nat,
        ),
{
    if i > 0 && j == 0 {
        assert(prefix_distance(p, c, (i - 1) as nat, 0) == i - 1) by {
            if i - 1 > 0 {
            }
        }
    }
    if i == 0 && j > 0 {
        assert(prefix_distance(p, c, 0, (j - 1) as nat) == j - 1);
    }
}

/// A script costs at least the distance.
proof fn lemma_script_costs_at_least(p: Seq<u8>, c: Seq<u8>, i: nat, j: nat, e: nat)
    requires
        script(p, c, i, j, e),
    ensures
        prefix_distance(p, c, i, j) <= e,
    decreases i + j,
{
    lemma_distance_steps(p, c, i, j);
    if i == 0 && j == 0 {
    } else if i > 0 && j > 0 && p[i - 1] == c[j - 1] && script(p, c, (i - 1) as nat, (j - 1) as nat, e) {
        lemma_script_costs_at_least(p, c, (i - 1) as nat, (j - 1) as nat, e);
    } else if i > 0 && j > 0 && e > 0 && script(p, c, (i - 1) as nat, (j - 1) as nat, (e - 1) as nat) {
        lemma_script_costs_at_least(p, c, (i - 1) as nat, (j - 1) as nat, (e - 1) as nat);
    } else if j > 0 && e > 0 && script(p, c, i, (j - 1) as nat, (e - 1) as nat) {
        lemma_script_costs_at_least(p, c, i, (j - 1) as nat, (e - 1) as nat);
    } else {
        lemma_script_costs_at_least(p, c, (i - 1) as nat, j, (e - 1) as nat);
    }
}

/// Some script costs exactly the distance.
proof fn lemma_script_of_distance(p: Seq<u8>, c: Seq<u8>, i: nat, j: nat)
    ensures
        prefix_distance(p, c, i, j) >= 0,
        script(p, c, i, j, prefix_distance(p, c, i, j) as nat),
    decreases i + j,
{
    if i == 0 && j == 0 {
    } else if i == 0 {
        lemma_script_of_distance(p, c, 0, (j - 1) as nat);
        assert(prefix_distance(p, c, 0, (j - 1) as nat) == j - 1);
    } else if j == 0 {
        lemma_script_of_distance(p, c, (i - 1) as nat, 0);
        assert(prefix_distance(p, c, (i - 1) as nat, 0) == i - 1) by {
            if i - 1 > 0 {
            }
        }
    } else {
        let pi = (i - 1) as nat;
        let pj = (j - 1) as nat;
        lemma_script_of_distance(p, c, pi, pj);
        lemma_script_of_distance(p, c, pi, j);
        lemma_script_of_distance(p, c, i, pj);
    }
}

/// Some script of cost at most `k` exists exactly where the distance is at
/// most `k`.
proof fn lemma_script_within(p: Seq<u8>, c: Seq<u8>, k: nat)
    ensures
        (exists|e: nat| e <= k && #[trigger] script(p, c, p.len(), c.len(), e)) <==> edit_distance(p, c)
            <= k,
{
    lemma_script_of_distance(p, c, p.len(), c.len());
    if exists|e: nat| e <= k && #[trigger] script(p, c, p.len(), c.len(), e) {
        let e = choose|e: nat| e <= k && #[trigger] script(p, c, p.len(), c.len(), e);
        lemma_script_costs_at_least(p, c, p.len(), c.len(), e);
    }
    if edit_distance(p, c) <= k {
        let e = edit_distance(p, c) as nat;
        assert(script(p, c, p.len(), c.len(), e));
    }
}

/// The states of `m` whose (edits, position) pair some script of exactly
/// that cost reaches after `j` tokens of `c`.
pub open spec fn scripted(m: NfaModel<(usize, usize), u8>, p: Seq<u8>, c: Seq<u8>, j: nat) -> Set<int> {
    Set::new(
        |a: int| 0 <= a < m.len() && script(p, c, m.states[a].1 as nat, j, m.states[a].0 as nat),
    )
}

/// The states whose pair is reached by a script ending in a step that reads.
pub open spec fn consumed(m: NfaModel<(usize, usize), u8>, p: Seq<u8>, c: Seq<u8>, j: nat) -> Set<int> {
    Set::new(
        |a: int| 0 <= a < m.len() && consuming(p, c, m.states[a].1 as nat, j, m.states[a].0 as nat),
    )
}

proof fn lemma_index_of_pair(m: NfaModel<(usize, usize), u8>, p: Seq<u8>, k: nat, s: (usize, usize))
    requires
        is_levenshtein_nfa(m, p, k),
        s.0 <= k,
        s.1 <= p.len(),
    ensures
        exists|a: int| 0 <= a < m.len() && m.states[a] == s,
{
    assert(m.is_state(s));
}

proof fn lemma_edge_lev(m: NfaModel<(usize, usize), u8>, p: Seq<u8>, k: nat, a: int, by: Input<u8>, b: int)
    requires
        is_levenshtein_nfa(m, p, k),
        0 <= a < m.len(),
        0 <= b < m.len(),
    ensures
        m.edge(a, by, b) <==> lev_edge(p, k, m.states[a], by, m.states[b]),
{
    if m.edge(a, by, b) {
        assert(m.has_edge(m.states[a], by, m.states[b]));
    }
    if lev_edge(p, k, m.states[a], by, m.states[b]) {
        assert(m.has_edge(m.states[a], by, m.states[b]));
        let (x, y) = choose|x: int, y: int|
            0 <= x < m.len() && 0 <= y < m.len() && m.states[x] == m.states[a] && m.states[y]
                == m.states[b] && #[trigger] m.edge(x, by, y);
        assert(x == a);
        assert(y == b);
    }
}

proof fn lemma_edge_in_range(m: NfaModel<(usize, usize), u8>, a: int, by: Input<u8>, b: int)
    requires
        m.wf(),
        m.edge(a, by, b),
    ensures
        0 <= a < m.len(),
        0 <= b < m.len(),
{
    let q = choose|q: int| 0 <= q < m.edges.len() && #[trigger] m.edges[q] == (a, by, b);
    assert(m.edges[q].0 == a);
}

/// The states that a script reaching position `i` with `e` edits after `j`
/// tokens stands for are in the epsilon closure of those reached by
/// reading steps.
proof fn lemma_scripted_in_closure(
    m: NfaModel<(usize, usize), u8>,
    p: Seq<u8>,
    c: Seq<u8>,
    k: nat,
    j: nat,
    a: int,
)
    requires
        is_levenshtein_nfa(m, p, k),
        0 <= a < m.len(),
        script(p, c, m.states[a].1 as nat, j, m.states[a].0 as nat),
    ensures
        m.closure(consumed(m, p, c, j)).contains(a),
    decreases m.states[a].1,
{
    let e = m.states[a].0 as nat;
    let i = m.states[a].1 as nat;
    let y = consumed(m, p, c, j);
    lemma_script_split(p, c, i, j, e);
    assert(m.is_state(m.states[a]));
    if consuming(p, c, i, j, e) {
        m.lemma_closure_grows(y);
        assert(y.contains(a));
    } else {
        let s = ((e - 1) as usize, (i - 1) as usize);
        lemma_index_of_pair(m, p, k, s);
        let a2 = choose|a2: int| 0 <= a2 < m.len() && m.states[a2] == s;
        lemma_scripted_in_closure(m, p, c, k, j, a2);
        lemma_edge_lev(m, p, k, a2, Input::Epsilon, a);
        m.lemma_closure_step(y, a2, a);
    }
}

/// Closing the states reached by reading steps gives every scripted state.
proof fn lemma_closure_of_consumed(
    m: NfaModel<(usize, usize), u8>,
    p: Seq<u8>,
    c: Seq<u8>,
    k: nat,
    j: nat,
)
    requires
        is_levenshtein_nfa(m, p, k),
    ensures
        m.closure(consumed(m, p, c, j)) == scripted(m, p, c, j),
{
    let y = consumed(m, p, c, j);
    let s = scripted(m, p, c, j);
    assert forall|a: int| y.contains(a) implies s.contains(a) by {
        lemma_script_split(p, c, m.states[a].1 as nat, j, m.states[a].0 as nat);
    }
    assert forall|a: int, b: int| s.contains(a) && m.edge(a, Input::Epsilon, b) implies s.contains(b) by {
        lemma_edge_in_range(m, a, Input::Epsilon, b);
        lemma_edge_lev(m, p, k, a, Input::Epsilon, b);
        let e = m.states[a].0 as nat;
        let i = m.states[a].1 as nat;
        assert(m.states[b].0 == e + 1 && m.states[b].1 == i + 1);
        lemma_script_split(p, c, i + 1, j, e + 1);
        assert((i + 1 - 1) as nat == i && (e + 1 - 1) as nat == e);
    }
    m.lemma_closure_least(y, s);
    assert forall|a: int| s.contains(a) implies m.closure(y).contains(a) by {
        lemma_scripted_in_closure(m, p, c, k, j, a);
    }
    assert(m.closure(y) =~= s);
}

/// Reading token `j` of `c` from the scripted states of `j` reaches the
/// states whose scripts end in a reading step at `j + 1`.
proof fn lemma_step_of_scripted(
    m: NfaModel<(usize, usize), u8>,
    p: Seq<u8>,
    c: Seq<u8>,
    k: nat,
    j: nat,
)
    requires
        is_levenshtein_nfa(m, p, k),
        j < c.len(),
    ensures
        m.step(scripted(m, p, c, j), c[j as int]) == consumed(m, p, c, j + 1),
{
    let x = scripted(m, p, c, j);
    let t = c[j as int];
    let y = consumed(m, p, c, j + 1);
    assert forall|b: int| m.step(x, t).contains(b) implies y.contains(b) by {
        let a = choose|a: int| x.contains(a) && #[trigger] m.moves(a, t, b);
        let by = if m.edge(a, Input::Any, b) {
            Input::Any
        } else {
            Input::Token(t)
        };
        assert(m.edge(a, by, b));
        lemma_edge_in_range(m, a, by, b);
        lemma_edge_lev(m, p, k, a, by, b);
        let e = m.states[a].0 as nat;
        let i = m.states[a].1 as nat;
        let e2 = m.states[b].0 as nat;
        let i2 = m.states[b].1 as nat;
        assert((j + 1 - 1) as nat == j);
        if e2 == e && i2 == i + 1 {
            assert(by == Input::Token(p[i as int]));
            assert(p[i2 - 1] == c[j + 1 - 1]);
            assert(consuming(p, c, i2, j + 1, e2));
        } else if e2 == e + 1 && i2 == i + 1 {
            assert(consuming(p, c, i2, j + 1, e2));
        } else {
            assert(e2 == e + 1 && i2 == i);
            assert(consuming(p, c, i2, j + 1, e2));
        }
    }
    assert forall|b: int| y.contains(b) implies m.step(x, t).contains(b) by {
        let e2 = m.states[b].0 as nat;
        let i2 = m.states[b].1 as nat;
        assert(m.is_state(m.states[b]));
        assert((j + 1 - 1) as nat == j);
        if i2 > 0 && p[i2 - 1] == c[j as int] && script(p, c, (i2 - 1) as nat, j, e2) {
            let s = (e2 as usize, (i2 - 1) as usize);
            lemma_index_of_pair(m, p, k, s);
            let a = choose|a: int| 0 <= a < m.len() && m.states[a] == s;
            lemma_edge_lev(m, p, k, a, Input::Token(t), b);
            assert(m.moves(a, t, b));
            assert(x.contains(a));
        } else if i2 > 0 && e2 > 0 && script(p, c, (i2 - 1) as nat, j, (e2 - 1) as nat) {
            let s = ((e2 - 1) as usize, (i2 - 1) as usize);
            lemma_index_of_pair(m, p, k, s);
            let a = choose|a: int| 0 <= a < m.len() && m.states[a] == s;
            lemma_edge_lev(m, p, k, a, Input::Any, b);
            assert(m.moves(a, t, b));
            assert(x.contains(a));
        } else {
            assert(e2 > 0 && script(p, c, i2, j, (e2 - 1) as nat));
            let s = ((e2 - 1) as usize, i2 as usize);
            lemma_index_of_pair(m, p, k, s);
            let a = choose|a: int| 0 <= a < m.len() && m.states[a] == s;
            lemma_edge_lev(m, p, k, a, Input::Any, b);
            assert(m.moves(a, t, b));
            assert(x.contains(a));
        }
    }
    assert(m.step(x, t) =~= y);
}

/// After the first `j` tokens of `c`, the frontier holds exactly the
/// scripted states.
proof fn lemma_frontier(m: NfaModel<(usize, usize), u8>, p: Seq<u8>, c: Seq<u8>, k: nat, j: nat)
    requires
        is_levenshtein_nfa(m, p, k),
        j <= c.len(),
    ensures
        m.run_from(m.start(), c.subrange(0, j as int)) == scripted(m, p, c, j),
    decreases j,
{
    if j == 0 {
        assert(consumed(m, p, c, 0) =~= set![0int]) by {
            assert(m.states[0] == (0usize, 0usize));
            assert forall|a: int| consumed(m, p, c, 0).contains(a) implies a == 0 by {
                assert(m.states[a] == (0usize, 0usize));
            }
        }
        lemma_closure_of_consumed(m, p, c, k, 0);
        assert(c.subrange(0, 0) =~= Seq::<u8>::empty());
    } else {
        let pj = (j - 1) as nat;
        lemma_frontier(m, p, c, k, pj);
        m.lemma_run_from_push(m.start(), c.subrange(0, pj as int), c[pj as int]);
        assert(c.subrange(0, pj as int).push(c[pj as int]) =~= c.subrange(0, j as int));
        lemma_step_of_scripted(m, p, c, k, pj);
        lemma_closure_of_consumed(m, p, c, k, j);
    }
}

/// The Levenshtein automaton of `p` with at most `k` edits accepts `c`
/// exactly when the edit distance between `p` and `c` is at most `k`.
pub proof fn lemma_levenshtein_language(m: NfaModel<(usize, usize), u8>, p: Seq<u8>, k: nat, c: Seq<u8>)
    requires
        is_levenshtein_nfa(m, p, k),
    ensures
        m.accepts(c) == (edit_distance(p, c) <= k),
{
    lemma_frontier(m, p, c, k, c.len());
    assert(c.subrange(0, c.len() as int) =~= c);
    let f = scripted(m, p, c, c.len());
    lemma_script_within(p, c, k);
    if m.accepts(c) {
        let a = choose|a: int| 0 <= a < m.len() && f.contains(a) && #[trigger] m.accepting[a];
        assert(m.is_accept_state(m.states[a]));
        assert(script(p, c, p.len(), c.len(), m.states[a].0 as nat));
    }
    if edit_distance(p, c) <= k {
        let e = choose|e: nat| e <= k && #[trigger] script(p, c, p.len(), c.len(), e);
        let s = (e as usize, p.len() as usize);
        assert(m.is_state(s));
        let a = choose|a: int| 0 <= a < m.states.len() && m.states[a] == s;
        assert(m.is_accept_state(s));
        let a2 = choose|a2: int| 0 <= a2 < m.len() && m.states[a2] == s && #[trigger] m.accepting[a2];
        assert(a2 == a);
        assert(f.contains(a));
    }
}

/// Allowing one more edit loses no accepted sequence.
pub proof fn lemma_levenshtein_monotone(
    m: NfaModel<(usize, usize), u8>,
    wider: NfaModel<(usize, usize), u8>,
    p: Seq<u8>,
    k: nat,
    c: Seq<u8>,
)
    requires
        is_levenshtein_nfa(m, p, k),
        is_levenshtein_nfa(wider, p, k + 1),
    ensures
        m.accepts(c) ==> wider.accepts(c),
{
    lemma_levenshtein_language(m, p, k, c);
    lemma_levenshtein_language(wider, p, k + 1, c);
}

} // verus!
