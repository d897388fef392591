use vstd::prelude::*;
use vstd::set_lib::*;
use crate::dfa;
use crate::dfa::DfaModel;
use crate::symbol::Symbol;
use super::model::{Input, NfaModel, mask_set};
use super::table::Spec;

verus! {

/// Every mask of length `n`.
pub open spec fn all_masks(n: nat) -> Set<Seq<bool>> {
    Set::new(|m: Seq<bool>| m.len() == n)
}

proof fn lemma_all_masks_finite(n: nat)
    ensures
        all_masks(n).finite(),
    decreases n,
{
    if n == 0 {
        assert forall|m: Seq<bool>| #[trigger] all_masks(0).contains(m) implies m == Seq::<bool>::empty() by {
            assert(m =~= Seq::<bool>::empty());
        }
        assert(all_masks(0) =~= set![Seq::<bool>::empty()]);
    } else {
        let p = (n - 1) as nat;
        lemma_all_masks_finite(p);
        let f = |m: Seq<bool>| m.push(false);
        let g = |m: Seq<bool>| m.push(true);
        all_masks(p).lemma_map_finite(f);
        all_masks(p).lemma_map_finite(g);
        assert forall|m: Seq<bool>| #[trigger] all_masks(n).contains(m) implies all_masks(p).map(
            f,
        ).union(all_masks(p).map(g)).contains(m) by {
            let q = m.drop_last();
            assert(all_masks(p).contains(q));
            if m.last() {
                assert(m =~= g(q));
                assert(all_masks(p).map(g).contains(g(q)));
            } else {
                assert(m =~= f(q));
                assert(all_masks(p).map(f).contains(f(q)));
            }
        }
        assert(all_masks(n) =~= all_masks(p).map(f).union(all_masks(p).map(g)));
    }
}

/// A list of distinct masks of length `n` is no longer than the number of
/// such masks.
proof fn lemma_distinct_masks_bounded(masks: Seq<Seq<bool>>, n: nat)
    requires
        masks.no_duplicates(),
        forall|k: int| 0 <= k < masks.len() ==> (#[trigger] masks[k]).len() == n,
    ensures
        masks.len() <= all_masks(n).len(),
{
    lemma_all_masks_finite(n);
    masks.unique_seq_to_set();
    assert(masks.to_set().subset_of(all_masks(n)));
    lemma_len_subset(masks.to_set(), all_masks(n));
}

/// The set holds at least one state.
pub open spec fn nonempty(x: Set<int>) -> bool {
    exists|i: int| x.contains(i)
}

/// The states of the deterministic table that a subset construction has
/// made: the numbers below `count`.
pub open spec fn ids(count: int) -> Set<usize> {
    Set::new(|v: usize| v < count)
}

/// `dfa` is the subset construction of `nfa`: deterministic state `v` stands
/// for the set `sets[v]` of nondeterministic states; state 0 for the closure
/// of the initial state; `v` accepts where its set holds an accepting state;
/// and on each token of the alphabet, `v` moves to the state of the nonempty
/// frontier that its set advances to, and has no transition where that
/// frontier is empty.
pub open spec fn is_subset_construction<Stat, Token>(
    nfa: NfaModel<Stat, Token>,
    dfa: DfaModel<usize, Token>,
    sets: Seq<Set<int>>,
) -> bool {
    &&& sets.len() >= 1
    &&& sets[0] == nfa.start()
    &&& forall|v: int, w: int| 0 <= v < sets.len() && 0 <= w < sets.len() && v != w ==> sets[v] != sets[w]
    &&& forall|v: int| 0 <= v < sets.len() ==> nonempty(#[trigger] sets[v])
    &&& dfa.initial == 0
    &&& dfa.states == ids(sets.len() as int)
    &&& forall|v: usize| #[trigger]
        dfa.accepts.contains(v) <==> v < sets.len() && nfa.accepting_in(sets[v as int])
    &&& forall|v: usize, t: Token| #[trigger]
        dfa.table.contains_key((v, t)) <==> v < sets.len() && nfa.has_token(t) && exists|i: int|
            #[trigger] nfa.advance(sets[v as int], t).contains(i)
    &&& forall|v: usize, t: Token| #[trigger]
        dfa.table.contains_key((v, t)) ==> dfa.table[(v, t)] < sets.len() && sets[dfa.table[(
            v,
            t,
        )] as int] == nfa.advance(sets[v as int], t)
}

/// Tokens that the deterministic table can read as the nondeterministic one
/// does: each token of `s` labels an edge, or no edge is a wildcard.
pub open spec fn readable<Stat, Token>(nfa: NfaModel<Stat, Token>, s: Seq<Token>) -> bool {
    !nfa.has_wildcard() || forall|i: int| 0 <= i < s.len() ==> nfa.has_token(#[trigger] s[i])
}

proof fn lemma_run_matches<Stat, Token>(
    nfa: NfaModel<Stat, Token>,
    dfa: DfaModel<usize, Token>,
    sets: Seq<Set<int>>,
    v: usize,
    s: Seq<Token>,
)
    requires
        nfa.wf(),
        is_subset_construction(nfa, dfa, sets),
        v < sets.len(),
        readable(nfa, s),
    ensures
        match dfa.run_from(v, s) {
            Some(w) => w < sets.len() && sets[w as int] == nfa.run_from(sets[v as int], s),
            None => nfa.run_from(sets[v as int], s) == Set::<int>::empty(),
        },
    decreases s.len(),
{
    if s.len() > 0 {
        let t = s[0];
        let rest = s.drop_first();
        assert(readable(nfa, rest)) by {
            if nfa.has_wildcard() {
                assert forall|i: int| 0 <= i < rest.len() implies nfa.has_token(#[trigger] rest[i]) by {
                    assert(rest[i] == s[i + 1]);
                }
            }
        }
        let next = nfa.advance(sets[v as int], t);
        if dfa.table.contains_key((v, t)) {
            let w = dfa.table[(v, t)];
            lemma_run_matches(nfa, dfa, sets, w, rest);
        } else {
            assert(next =~= Set::<int>::empty()) by {
                if nfa.has_token(t) {
                    assert(!exists|i: int| #[trigger] next.contains(i));
                } else {
                    assert(!nfa.has_wildcard()) by {
                        assert(nfa.has_token(s[0]) || !nfa.has_wildcard());
                    }
                    assert(nfa.step(sets[v as int], t) =~= Set::<int>::empty()) by {
                        assert forall|b: int| !nfa.step(sets[v as int], t).contains(b) by {
                            if nfa.step(sets[v as int], t).contains(b) {
                                let a = choose|a: int|
                                    sets[v as int].contains(a) && #[trigger] nfa.moves(a, t, b);
                                if nfa.edge(a, Input::Any, b) {
                                    assert(nfa.has_wildcard());
                                } else {
                                    assert(nfa.has_token(t));
                                }
                            }
                        }
                    }
                    assert(nfa.closure(Set::empty()) =~= Set::<int>::empty());
                }
            }
            nfa.lemma_run_from_empty(rest);
        }
    }
}

/// A subset construction accepts what the nondeterministic table accepts,
/// on every token sequence that it can read.
pub proof fn lemma_subset_construction_preserves_language<Stat, Token>(
    nfa: NfaModel<Stat, Token>,
    dfa: DfaModel<usize, Token>,
    sets: Seq<Set<int>>,
    s: Seq<Token>,
)
    requires
        nfa.wf(),
        is_subset_construction(nfa, dfa, sets),
        readable(nfa, s),
    ensures
        dfa.accepts(s) == nfa.accepts(s),
{
    lemma_run_matches(nfa, dfa, sets, 0, s);
    match dfa.run_from(0, s) {
        Some(w) => {
            assert(dfa.accepts.contains(w) == nfa.accepting_in(sets[w as int]));
        },
        None => {
            assert(!nfa.accepting_in(Set::<int>::empty()));
        },
    }
}

/// Each state `w` from 1 below `count` was first reached from the smaller
/// state `parents[w - 1].0` on the token `parents[w - 1].1`.
pub open spec fn parented<Token>(dfa: DfaModel<usize, Token>, parents: Seq<(usize, Token)>, count: int) -> bool {
    &&& parents.len() + 1 == count
    &&& forall|w: int|
        1 <= w < count ==> (#[trigger] parents[w - 1]).0 < w && dfa.table.contains_key(parents[w - 1])
            && dfa.table[parents[w - 1]] == w
}

/// A state with a chain of parents back to state 0 is reachable from it.
proof fn lemma_reachable<Token>(dfa: DfaModel<usize, Token>, parents: Seq<(usize, Token)>, count: int, w: usize)
    requires
        parented(dfa, parents, count),
        w < count,
    ensures
        exists|s: Seq<Token>| #[trigger] dfa.run_from(0, s) == Some(w),
    decreases w,
{
    if w == 0 {
        assert(dfa.run_from(0, Seq::<Token>::empty()) == Some(0usize));
    } else {
        let (v, t) = parents[w - 1];
        lemma_reachable(dfa, parents, count, v);
        let s = choose|s: Seq<Token>| #[trigger] dfa.run_from(0, s) == Some(v);
        dfa.lemma_run_from_push(0, s, t);
        assert(dfa.run_from(0, s.push(t)) == Some(w));
    }
}

fn same_mask(a: &Vec<bool>, b: &Vec<bool>) -> (r: bool)
    ensures
        r == (a@ == b@),
{
    if a.len() != b.len() {
        return false;
    }
    let mut i: usize = 0;
    while i < a.len()
        invariant
            a@.len() == b@.len(),
            i <= a@.len(),
            forall|j: int| 0 <= j < i ==> a@[j] == b@[j],
        decreases a@.len() - i,
    {
        if a[i] != b[i] {
            return false;
        }
        i += 1;
    }
    assert(a@ =~= b@);
    true
}

fn find_mask(masks: &Vec<Vec<bool>>, target: &Vec<bool>) -> (r: Option<usize>)
    ensures
        match r {
            Some(k) => k < masks@.len() && masks@[k as int]@ == target@,
            None => forall|k: int| 0 <= k < masks@.len() ==> masks@[k]@ != target@,
        },
{
    let mut k: usize = 0;
    while k < masks.len()
        invariant
            k <= masks@.len(),
            forall|q: int| 0 <= q < k ==> masks@[q]@ != target@,
        decreases masks@.len() - k,
    {
        if same_mask(&masks[k], target) {
            return Some(k);
        }
        k += 1;
    }
    None
}

fn is_empty_mask(mask: &Vec<bool>) -> (r: bool)
    ensures
        r == !exists|i: int| #[trigger] mask_set(mask@).contains(i),
{
    let mut i: usize = 0;
    while i < mask.len()
        invariant
            i <= mask@.len(),
            forall|j: int| 0 <= j < i ==> !mask@[j],
        decreases mask@.len() - i,
    {
        if mask[i] {
            assert(mask_set(mask@).contains(i as int));
            return false;
        }
        i += 1;
    }
    true
}

/// The views of a list of masks.
pub open spec fn mask_views(masks: Seq<Vec<bool>>) -> Seq<Seq<bool>> {
    masks.map_values(|v: Vec<bool>| v@)
}

/// The state sets of a list of masks.
pub open spec fn mask_sets(masks: Seq<Vec<bool>>) -> Seq<Set<int>> {
    masks.map_values(|v: Vec<bool>| mask_set(v@))
}

/// Subset construction. Deterministic state `v` stands for the set of
/// nondeterministic states listed, in declaration order, by the `v`-th entry
/// of the second result; state 0 is the closure of the initial state. Only
/// the tokens that label an edge get transitions, so where the table has a
/// wildcard edge, a token outside that alphabet is not read.
pub fn translate_to_dfa<Stat: Symbol, Token: Symbol>(spec: &Spec<Stat, Token>) -> (r: (
    dfa::Spec<usize, Token>,
    Vec<Vec<Stat>>,
))
    requires
        spec@.wf(),
    ensures
        r.0.wf(),
        exists|sets: Seq<Set<int>>|
            #[trigger] is_subset_construction(spec@, r.0@, sets) && sets.len() == r.1@.len()
                && forall|v: int|
                0 <= v < sets.len() ==> (#[trigger] r.1@[v])@ == spec@.subset_values(sets[v]),
        forall|s: Seq<Token>| #[trigger]
            readable(spec@, s) ==> r.0@.accepts(s) == spec@.accepts(s),
        forall|v: usize| #[trigger]
            r.0@.states.contains(v) ==> exists|s: Seq<Token>| #[trigger] r.0@.run_from(0, s) == Some(v),
{
    let ghost m = spec@;
    let n = spec.all_states().len();
    let tokens = spec.tokens();
    let init = spec.initial_frontier();
    let mut out: dfa::Spec<usize, Token> = dfa::Spec::new(0);
    if spec.frontier_accepts(&init) {
        out.add_accept_state(0);
    }
    assert(m.start().contains(0)) by {
        m.lemma_closure_grows(set![0int]);
    }
    assert(mask_set(init@).contains(0));
    let mut subsets: Vec<Vec<Stat>> = Vec::new();
    subsets.push(spec.list_subset(&init));
    let mut masks: Vec<Vec<bool>> = Vec::new();
    masks.push(init);
    assert(out@.states =~= ids(1));
    assert(out@.accepts =~= Set::new(|v: usize| v < 1 && m.accepting_in(mask_set(masks@[v as int]@))));
    let ghost mut parents: Seq<(usize, Token)> = Seq::empty();
    let mut next: usize = 0;
    while next < masks.len()
        invariant
            parented(out@, parents, masks@.len() as int),
            m == spec@,
            m.wf(),
            n == m.len(),
            tokens@.no_duplicates(),
            forall|t: Token| tokens@.contains(t) <==> m.has_token(t),
            masks@.len() == subsets@.len(),
            masks@.len() >= 1,
            next <= masks@.len(),
            forall|k: int| 0 <= k < masks@.len() ==> (#[trigger] masks@[k])@.len() == n,
            forall|k: int|
                0 <= k < masks@.len() ==> (#[trigger] subsets@[k])@ == m.subset_values(
                    mask_set(masks@[k]@),
                ),
            mask_views(masks@).no_duplicates(),
            mask_set(masks@[0]@) == m.start(),
            forall|k: int| #![trigger masks@[k]]
                0 <= k < masks@.len() ==> nonempty(mask_set(masks@[k]@)),
            out.wf(),
            out@.initial == 0,
            out@.states == ids(masks@.len() as int),
            forall|v: usize| #[trigger]
                out@.accepts.contains(v) <==> v < masks@.len() && m.accepting_in(
                    mask_set(masks@[v as int]@),
                ),
            forall|v: usize, t: Token| #[trigger]
                out@.table.contains_key((v, t)) <==> v < next && m.has_token(t) && exists|i: int|
                    #[trigger] m.advance(mask_set(masks@[v as int]@), t).contains(i),
            forall|v: usize, t: Token| #[trigger]
                out@.table.contains_key((v, t)) ==> out@.table[(v, t)] < masks@.len() && mask_set(
                    masks@[out@.table[(v, t)] as int]@,
                ) == m.advance(mask_set(masks@[v as int]@), t),
        decreases all_masks(n as nat).len() - masks@.len(), masks@.len() - next,
    {
        let ghost count = masks@.len();
        let mut j: usize = 0;
        while j < tokens.len()
            invariant
                m == spec@,
                m.wf(),
                n == m.len(),
                tokens@.no_duplicates(),
                forall|t: Token| tokens@.contains(t) <==> m.has_token(t),
                masks@.len() == subsets@.len(),
                count <= masks@.len(),
                next < count,
                j <= tokens@.len(),
                forall|k: int| 0 <= k < masks@.len() ==> (#[trigger] masks@[k])@.len() == n,
                forall|k: int|
                    0 <= k < masks@.len() ==> (#[trigger] subsets@[k])@ == m.subset_values(
                        mask_set(masks@[k]@),
                    ),
                mask_views(masks@).no_duplicates(),
                mask_set(masks@[0]@) == m.start(),
                forall|k: int| #![trigger masks@[k]]
                    0 <= k < masks@.len() ==> nonempty(mask_set(masks@[k]@)),
                out.wf(),
                out@.initial == 0,
                out@.states == ids(masks@.len() as int),
                forall|v: usize| #[trigger]
                    out@.accepts.contains(v) <==> v < masks@.len() && m.accepting_in(
                        mask_set(masks@[v as int]@),
                    ),
                forall|v: usize, t: Token| #[trigger]
                    out@.table.contains_key((v, t)) <==> (v < next || (v == next
                        && tokens@.subrange(0, j as int).contains(t))) && m.has_token(t)
                        && exists|i: int| #[trigger] m.advance(mask_set(masks@[v as int]@), t).contains(i),
                forall|v: usize, t: Token| #[trigger]
                    out@.table.contains_key((v, t)) ==> out@.table[(v, t)] < masks@.len() && mask_set(
                        masks@[out@.table[(v, t)] as int]@,
                    ) == m.advance(mask_set(masks@[v as int]@), t),
                parented(out@, parents, masks@.len() as int),
            decreases tokens@.len() - j,
        {
            let token = &tokens[j];
            let ghost pre0 = tokens@.subrange(0, j as int);
            let ghost pre1 = tokens@.subrange(0, j + 1);
            assert(m.has_token(*token)) by {
                assert(tokens@.contains(tokens@[j as int]));
            }
            assert(!pre0.contains(*token)) by {
                if pre0.contains(*token) {
                    let q = choose|q: int| 0 <= q < j && #[trigger] pre0[q] == *token;
                    assert(tokens@[q] == tokens@[j as int]);
                }
            }
            assert(pre1 =~= pre0.push(*token));
            let target = spec.next_frontier(&masks[next], token);
            let ghost tset = mask_set(target@);
            let ghost from_set = mask_set(masks@[next as int]@);
            let ghost before = out@;
            let ghost old_masks = masks@;
            let ghost old_parents = parents;
            if !is_empty_mask(&target) {
                let id = match find_mask(&masks, &target) {
                    Some(id) => id,
                    None => {
                        let id = masks.len();
                        let acc = spec.frontier_accepts(&target);
                        out.add_state(id);
                        if acc {
                            out.add_accept_state(id);
                        }
                        subsets.push(spec.list_subset(&target));
                        masks.push(target);
                        proof {
                            parents = parents.push((next, *token));
                            assert(masks@ == old_masks.push(masks@[id as int]));
                            assert(mask_views(masks@) =~= mask_views(old_masks).push(masks@[id as int]@));
                            assert(out@.states =~= ids(masks@.len() as int));
                            assert forall|v: usize| #[trigger]
                                out@.accepts.contains(v) <==> v < masks@.len() && m.accepting_in(
                                    mask_set(masks@[v as int]@),
                                ) by {
                                if v < id {
                                    assert(masks@[v as int] == old_masks[v as int]);
                                }
                            }
                            assert forall|k: int| 0 <= k < masks@.len() implies (#[trigger] subsets@[k])@
                                == m.subset_values(mask_set(masks@[k]@)) by {
                                if k < id {
                                    assert(masks@[k] == old_masks[k]);
                                }
                            }
                            assert forall|k: int| #![trigger masks@[k]] 0 <= k < masks@.len() implies nonempty(
                                mask_set(masks@[k]@),
                            ) by {
                                if k < id {
                                    assert(masks@[k] == old_masks[k]);
                                }
                            }
                            assert forall|v: usize, t: Token| #[trigger] out@.table.contains_key((v, t))
                                implies out@.table[(v, t)] < masks@.len() && mask_set(
                                masks@[out@.table[(v, t)] as int]@,
                            ) == m.advance(mask_set(masks@[v as int]@), t) by {
                                assert(masks@[out@.table[(v, t)] as int] == old_masks[out@.table[(
                                    v,
                                    t,
                                )] as int]);
                                assert(masks@[v as int] == old_masks[v as int]);
                            }
                        }
                        id
                    },
                };
                let ghost mid = out@;
                let ghost mid_masks = masks@;
                assert(mask_set(masks@[id as int]@) == tset);
                assert(masks@[next as int] == old_masks[next as int]);
                assert(!mid.table.contains_key((next, *token)));
                let res = out.add_transition(next, token.duplicate(), id);
                proof {
                    assert(mid.table == before.table);
                    assert forall|w: int| 1 <= w < masks@.len() implies (#[trigger] parents[w - 1]).0 < w
                        && out@.table.contains_key(parents[w - 1]) && out@.table[parents[w - 1]] == w by {
                        if w < old_masks.len() {
                            assert(parents[w - 1] == old_parents[w - 1]);
                            assert(before.table.contains_key(old_parents[w - 1]));
                        } else {
                            assert(parents[w - 1] == (next, *token));
                        }
                    }
                    assert(mid.states.insert(next).insert(id) =~= mid.states);
                    assert forall|v: usize, t: Token| #[trigger]
                        out@.table.contains_key((v, t)) <==> (v < next || (v == next
                            && pre1.contains(t))) && m.has_token(t)
                            && exists|i: int| #[trigger] m.advance(mask_set(masks@[v as int]@), t).contains(i) by {
                        if v < masks@.len() && v < old_masks.len() {
                            assert(masks@[v as int] == old_masks[v as int]);
                        }
                        if (v, t) == (next, *token) {
                            assert(pre1.contains(t)) by {
                                assert(pre1[j as int] == t);
                            }
                            assert(tset.contains(choose|i: int| #[trigger] tset.contains(i)));
                        } else {
                            if v == next && pre1.contains(t) {
                                let q = choose|q: int| 0 <= q < j + 1 && #[trigger] pre1[q] == t;
                                assert(pre0[q] == t);
                            }
                        }
                    }
                    assert forall|v: usize, t: Token| #[trigger] out@.table.contains_key((v, t))
                        implies out@.table[(v, t)] < masks@.len() && mask_set(
                        masks@[out@.table[(v, t)] as int]@,
                    ) == m.advance(mask_set(masks@[v as int]@), t) by {
                        if (v, t) != (next, *token) {
                            assert(mid.table.contains_key((v, t)));
                        }
                    }
                }
            } else {
                proof {
                    assert forall|v: usize, t: Token| #[trigger]
                        out@.table.contains_key((v, t)) <==> (v < next || (v == next
                            && pre1.contains(t))) && m.has_token(t)
                            && exists|i: int| #[trigger] m.advance(mask_set(masks@[v as int]@), t).contains(i) by {
                        if v == next && pre1.contains(t) && !pre0.contains(t) {
                            let q = choose|q: int| 0 <= q < j + 1 && #[trigger] pre1[q] == t;
                            if q < j {
                                assert(pre0[q] == t);
                            }
                            assert(t == *token);
                        }
                        if v == next && pre0.contains(t) {
                            let q = choose|q: int| 0 <= q < j && #[trigger] pre0[q] == t;
                            assert(pre1[q] == t);
                        }
                    }
                }
            }
            j += 1;
        }
        proof {
            assert(tokens@.subrange(0, tokens@.len() as int) =~= tokens@);
            assert forall|k: int| 0 <= k < mask_views(masks@).len() implies (#[trigger] mask_views(
                masks@,
            )[k]).len() == n by {
                assert(mask_views(masks@)[k] == masks@[k]@);
            }
            lemma_distinct_masks_bounded(mask_views(masks@), n as nat);
        }
        next += 1;
    }
    let ghost sets = mask_sets(masks@);
    proof {
        assert forall|v: usize| #[trigger] out@.states.contains(v) implies exists|s: Seq<Token>|
            #[trigger] out@.run_from(0, s) == Some(v) by {
            lemma_reachable(out@, parents, masks@.len() as int, v);
        }
        assert forall|v: int, w: int| 0 <= v < sets.len() && 0 <= w < sets.len() && v != w
            implies sets[v] != sets[w] by {
            assert(mask_views(masks@)[v] != mask_views(masks@)[w]);
            if sets[v] == sets[w] {
                assert(masks@[v]@ =~= masks@[w]@) by {
                    assert forall|i: int| 0 <= i < n implies masks@[v]@[i] == masks@[w]@[i] by {
                        assert(mask_set(masks@[v]@).contains(i) == mask_set(masks@[w]@).contains(i));
                    }
                }
            }
        }
        assert forall|v: int| 0 <= v < sets.len() implies #[trigger] sets[v] == mask_set(masks@[v]@) by {
        }
        assert forall|v: int| 0 <= v < sets.len() implies nonempty(#[trigger] sets[v]) by {
            assert(masks@[v] == masks@[v]);
        }
        assert forall|v: usize| #[trigger] out@.accepts.contains(v) <==> v < sets.len() && m.accepting_in(sets[v as int]) by {
            if v < sets.len() {
                assert(sets[v as int] == mask_set(masks@[v as int]@));
            }
        }
        assert forall|v: usize, t: Token| #[trigger] out@.table.contains_key((v, t)) <==> v < sets.len() && m.has_token(t) && exists|i: int|
            #[trigger] m.advance(sets[v as int], t).contains(i) by {
            if v < sets.len() {
                assert(sets[v as int] == mask_set(masks@[v as int]@));
            }
        }
        assert forall|v: usize, t: Token| #[trigger] out@.table.contains_key((v, t)) implies out@.table[(v, t)] < sets.len() && sets[out@.table[(
            v,
            t,
        )] as int] == m.advance(sets[v as int], t) by {
            assert(sets[v as int] == mask_set(masks@[v as int]@));
            assert(sets[out@.table[(v, t)] as int] == mask_set(masks@[out@.table[(v, t)] as int]@));
        }
        assert(sets[0] == m.start());
        assert(is_subset_construction(spec@, out@, sets));
        assert forall|s: Seq<Token>| #[trigger] readable(spec@, s) implies out@.accepts(s) == spec@.accepts(s) by {
            lemma_subset_construction_preserves_language(spec@, out@, sets, s);
        }
    }
    (out, subsets)
}

} // verus!
