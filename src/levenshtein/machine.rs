use vstd::prelude::*;
use vstd::string::StringSliceAdditionalSpecFns;
use crate::nfa::{Input, NfaModel, Spec};
use super::language::{edit_distance, lemma_levenshtein_language, lemma_levenshtein_monotone};

verus! {

/// Whether an edge labelled `by` leads from `a` to `b` in the Levenshtein
/// automaton of `word` with at most `k` edits. A state (e, i) has spent `e`
/// edits and matched the first `i` tokens of `word`. From (e, i) with i
/// below the length: a match edge labelled `word[i]` leads to (e, i + 1);
/// while e + 1 <= k, a wildcard edge to (e + 1, i + 1) substitutes and an
/// epsilon edge to (e + 1, i + 1) deletes. From every (e, i), i up to the
/// length, a wildcard edge to (e + 1, i) inserts while e + 1 <= k, so that
/// tokens can also be inserted after the whole of `word`.
pub open spec fn lev_edge(
    word: Seq<u8>,
    k: nat,
    a: (usize, usize),
    by: Input<u8>,
    b: (usize, usize),
) -> bool {
    let e = a.0 as int;
    let i = a.1 as int;
    &&& e <= k
    &&& i <= word.len()
    &&& {
        ||| i < word.len() && by == Input::Token(word[i]) && b.0 == e && b.1 == i + 1
        ||| i < word.len() && e + 1 <= k && by == Input::<u8>::Any && b.0 == e + 1 && b.1 == i + 1
        ||| e + 1 <= k && by == Input::<u8>::Any && b.0 == e + 1 && b.1 == i
        ||| i < word.len() && e + 1 <= k && by == Input::<u8>::Epsilon && b.0 == e + 1 && b.1 == i
            + 1
    }
}

/// `m` is the Levenshtein automaton of `word` with at most `k` edits: its
/// states are the pairs (e, i) with e <= k and i <= the length of `word`,
/// the initial one (0, 0), those with i equal to the length accept, and its
/// edges are those of `lev_edge`.
pub open spec fn is_levenshtein_nfa(m: NfaModel<(usize, usize), u8>, word: Seq<u8>, k: nat) -> bool {
    &&& word.len() <= usize::MAX
    &&& k < usize::MAX
    &&& m.wf()
    &&& m.states[0] == (0usize, 0usize)
    &&& forall|s: (usize, usize)| #[trigger] m.is_state(s) <==> s.0 <= k && s.1 <= word.len()
    &&& forall|s: (usize, usize)| #[trigger]
        m.is_accept_state(s) <==> s.0 <= k && s.1 == word.len()
    &&& forall|a: (usize, usize), by: Input<u8>, b: (usize, usize)| #[trigger]
        m.has_edge(a, by, b) <==> lev_edge(word, k, a, by, b)
}

/// Declares the states (0, i) .. (k, i).
fn add_row(spec: &mut Spec<(usize, usize), u8>, i: usize, k: usize)
    requires
        old(spec)@.wf(),
    ensures
        final(spec)@.wf(),
        final(spec)@.states[0] == old(spec)@.states[0],
        forall|s: (usize, usize)| #[trigger]
            final(spec)@.is_state(s) <==> old(spec)@.is_state(s) || (s.1 == i && s.0 <= k),
        forall|s: (usize, usize)| #[trigger]
            final(spec)@.is_accept_state(s) <==> old(spec)@.is_accept_state(s),
        forall|a: (usize, usize), by: Input<u8>, b: (usize, usize)| #[trigger]
            final(spec)@.has_edge(a, by, b) <==> old(spec)@.has_edge(a, by, b),
{
    let mut e: usize = 0;
    loop
        invariant
            spec@.wf(),
            e <= k,
            spec@.states[0] == old(spec)@.states[0],
            forall|s: (usize, usize)| #[trigger]
                spec@.is_state(s) <==> old(spec)@.is_state(s) || (s.1 == i && s.0 < e),
            forall|s: (usize, usize)| #[trigger]
                spec@.is_accept_state(s) <==> old(spec)@.is_accept_state(s),
            forall|a: (usize, usize), by: Input<u8>, b: (usize, usize)| #[trigger]
                spec@.has_edge(a, by, b) <==> old(spec)@.has_edge(a, by, b),
        decreases k - e,
    {
        proof {
            spec@.lemma_with_state((e, i));
        }
        spec.add_state((e, i));
        if e == k {
            return;
        }
        e += 1;
    }
}

/// Makes the states (0, n) .. (k, n) accepting.
fn add_accept_row(spec: &mut Spec<(usize, usize), u8>, n: usize, k: usize)
    requires
        old(spec)@.wf(),
    ensures
        final(spec)@.wf(),
        final(spec)@.states[0] == old(spec)@.states[0],
        forall|s: (usize, usize)| #[trigger]
            final(spec)@.is_state(s) <==> old(spec)@.is_state(s) || (s.1 == n && s.0 <= k),
        forall|s: (usize, usize)| #[trigger]
            final(spec)@.is_accept_state(s) <==> old(spec)@.is_accept_state(s) || (s.1 == n
                && s.0 <= k),
        forall|a: (usize, usize), by: Input<u8>, b: (usize, usize)| #[trigger]
            final(spec)@.has_edge(a, by, b) <==> old(spec)@.has_edge(a, by, b),
{
    let mut e: usize = 0;
    loop
        invariant
            spec@.wf(),
            e <= k,
            spec@.states[0] == old(spec)@.states[0],
            forall|s: (usize, usize)| #[trigger]
                spec@.is_state(s) <==> old(spec)@.is_state(s) || (s.1 == n && s.0 < e),
            forall|s: (usize, usize)| #[trigger]
                spec@.is_accept_state(s) <==> old(spec)@.is_accept_state(s) || (s.1 == n
                    && s.0 < e),
            forall|a: (usize, usize), by: Input<u8>, b: (usize, usize)| #[trigger]
                spec@.has_edge(a, by, b) <==> old(spec)@.has_edge(a, by, b),
        decreases k - e,
    {
        proof {
            spec@.lemma_with_accept_state((e, n));
        }
        spec.add_accept_state((e, n));
        if e == k {
            return;
        }
        e += 1;
    }
}

/// Builds the Levenshtein automaton of `word` with at most `distance` edits:
/// it accepts exactly the sequences within that edit distance of `word`.
fn create(word: &[u8], distance: usize) -> (r: Spec<(usize, usize), u8>)
    requires
        distance < usize::MAX,
    ensures
        is_levenshtein_nfa(r@, word@, distance as nat),
        forall|c: Seq<u8>| #[trigger] r@.accepts(c) == (edit_distance(word@, c) <= distance),
{
    let n = word.len();
    let k = distance;
    let mut spec: Spec<(usize, usize), u8> = Spec::new((0, 0));
    let ghost m0 = spec@;
    assert(m0.states[0] == (0usize, 0usize));
    assert(m0.is_state((0usize, 0usize)));
    assert forall|s: (usize, usize)| #[trigger] m0.is_state(s) implies s == (0usize, 0usize) by {
    }
    assert forall|s: (usize, usize)| !(#[trigger] m0.is_accept_state(s)) by {
    }
    assert forall|a: (usize, usize), by: Input<u8>, b: (usize, usize)| !(#[trigger] m0.has_edge(a, by, b)) by {
    }
    let mut i: usize = 0;
    while i < n
        invariant
            spec@.wf(),
            n == word@.len(),
            k == distance,
            i <= n,
            spec@.states[0] == (0usize, 0usize),
            forall|s: (usize, usize)| #[trigger]
                spec@.is_state(s) <==> s == (0usize, 0usize) || (s.1 < i && s.0 <= k),
            forall|s: (usize, usize)| !(#[trigger] spec@.is_accept_state(s)),
            forall|a: (usize, usize), by: Input<u8>, b: (usize, usize)| !(#[trigger] spec@.has_edge(a, by, b)),
        decreases n - i,
    {
        add_row(&mut spec, i, k);
        i += 1;
    }
    add_row(&mut spec, n, k);
    add_accept_row(&mut spec, n, k);
    let mut i: usize = 0;
    while i < n
        invariant
            spec@.wf(),
            n == word@.len(),
            k == distance,
            k < usize::MAX,
            i <= n,
            spec@.states[0] == (0usize, 0usize),
            forall|s: (usize, usize)| #[trigger] spec@.is_state(s) <==> s.0 <= k && s.1 <= n,
            forall|s: (usize, usize)| #[trigger] spec@.is_accept_state(s) <==> s.0 <= k && s.1 == n,
            forall|a: (usize, usize), by: Input<u8>, b: (usize, usize)| #[trigger]
                spec@.has_edge(a, by, b) <==> lev_edge(word@, k as nat, a, by, b) && a.1 < i,
        decreases n - i,
    {
        let ch = word[i];
        let mut lv: usize = 0;
        while lv <= k
            invariant
                spec@.wf(),
                n == word@.len(),
                k == distance,
                k < usize::MAX,
                i < n,
                lv <= k + 1,
                ch == word@[i as int],
                spec@.states[0] == (0usize, 0usize),
                forall|s: (usize, usize)| #[trigger] spec@.is_state(s) <==> s.0 <= k && s.1 <= n,
                forall|s: (usize, usize)| #[trigger]
                    spec@.is_accept_state(s) <==> s.0 <= k && s.1 == n,
                forall|a: (usize, usize), by: Input<u8>, b: (usize, usize)| #[trigger]
                    spec@.has_edge(a, by, b) <==> lev_edge(word@, k as nat, a, by, b) && (a.1 < i
                        || (a.1 == i && a.0 < lv)),
            decreases k + 1 - lv,
        {
            proof {
                spec@.lemma_with_edge((lv, i), Input::Token(ch), (lv, (i + 1) as usize));
            }
            spec.add_token_transition((lv, i), ch, (lv, i + 1));
            if lv < k {
                proof {
                    spec@.lemma_with_edge((lv, i), Input::Any, ((lv + 1) as usize, (i + 1) as usize));
                }
                spec.add_any_transition((lv, i), (lv + 1, i + 1));
                proof {
                    spec@.lemma_with_edge((lv, i), Input::Any, ((lv + 1) as usize, i));
                }
                spec.add_any_transition((lv, i), (lv + 1, i));
                proof {
                    spec@.lemma_with_edge((lv, i), Input::Epsilon, ((lv + 1) as usize, (i + 1) as usize));
                }
                spec.add_epsilon_transition((lv, i), (lv + 1, i + 1));
            }
            lv += 1;
        }
        i += 1;
    }
    let mut lv: usize = 0;
    while lv < k
        invariant
            spec@.wf(),
            n == word@.len(),
            k == distance,
            lv <= k,
            spec@.states[0] == (0usize, 0usize),
            forall|s: (usize, usize)| #[trigger] spec@.is_state(s) <==> s.0 <= k && s.1 <= n,
            forall|s: (usize, usize)| #[trigger] spec@.is_accept_state(s) <==> s.0 <= k && s.1 == n,
            forall|a: (usize, usize), by: Input<u8>, b: (usize, usize)| #[trigger]
                spec@.has_edge(a, by, b) <==> lev_edge(word@, k as nat, a, by, b) && (a.1 < n || (
                a.1 == n && a.0 < lv)),
        decreases k - lv,
    {
        proof {
            spec@.lemma_with_edge((lv, n), Input::Any, ((lv + 1) as usize, n));
        }
        spec.add_any_transition((lv, n), (lv + 1, n));
        lv += 1;
    }
    assert forall|c: Seq<u8>| #[trigger] spec@.accepts(c) == (edit_distance(word@, c) <= distance) by {
        lemma_levenshtein_language(spec@, word@, distance as nat, c);
    }
    spec
}

/// A fuzzy matcher: the Levenshtein automaton of a pattern, built once and
/// run over each candidate.
pub struct Machine {
    table: Spec<(usize, usize), u8>,
    pattern: Ghost<Seq<u8>>,
    distance: usize,
}

impl Machine {
    /// The bytes of the pattern.
    pub closed spec fn pattern(&self) -> Seq<u8> {
        self.pattern@
    }

    /// The largest edit distance that is accepted.
    pub closed spec fn max_distance(&self) -> nat {
        self.distance as nat
    }

    /// The automaton that is run.
    pub closed spec fn automaton(&self) -> NfaModel<(usize, usize), u8> {
        self.table@
    }

    pub closed spec fn wf(&self) -> bool {
        is_levenshtein_nfa(self.table@, self.pattern@, self.distance as nat)
    }

    /// The matcher for the bytes of `word` within `distance` edits.
    pub fn new(word: &str, distance: usize) -> (r: Self)
        requires
            distance < usize::MAX,
        ensures
            r.wf(),
            r.pattern() == word.spec_bytes(),
            r.max_distance() == distance,
            is_levenshtein_nfa(r.automaton(), r.pattern(), r.max_distance()),
    {
        let bytes = word.as_bytes();
        Machine { table: create(bytes, distance), pattern: Ghost(bytes@), distance }
    }

    /// Whether the bytes of `word` are within the largest edit distance of
    /// the pattern's: a run of the automaton over them.
    pub fn contains(&self, word: &str) -> (r: bool)
        requires
            self.wf(),
        ensures
            r == self.automaton().accepts(word.spec_bytes()),
            r == (edit_distance(self.pattern(), word.spec_bytes()) <= self.max_distance()),
    {
        let bytes = word.as_bytes();
        proof {
            lemma_levenshtein_language(self.table@, self.pattern@, self.distance as nat, bytes@);
        }
        self.table.run(bytes)
    }
}

/// Allowing one more edit loses no accepted word: a matcher for the same
/// pattern with one more edit accepts whatever this one accepts.
pub proof fn lemma_machine_monotone(m: &Machine, wider: &Machine, c: Seq<u8>)
    requires
        m.wf(),
        wider.wf(),
        wider.pattern() == m.pattern(),
        wider.max_distance() == m.max_distance() + 1,
    ensures
        m.automaton().accepts(c) ==> wider.automaton().accepts(c),
{
    lemma_levenshtein_monotone(m.automaton(), wider.automaton(), m.pattern(), m.max_distance(), c);
}

} // verus!
