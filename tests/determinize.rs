use std::collections::HashSet;

use fuzzy_automata::dfa::Machine as DfaMachine;
use fuzzy_automata::nfa::{translate_to_dfa, Spec};

fn sequences(alphabet: &[char], max_len: usize) -> Vec<Vec<char>> {
    let mut all = vec![vec![]];
    let mut last = vec![vec![]];
    for _ in 0..max_len {
        let mut next = Vec::new();
        for s in &last {
            for &c in alphabet {
                let mut t: Vec<char> = s.clone();
                t.push(c);
                next.push(t);
            }
        }
        all.extend(next.iter().cloned());
        last = next;
    }
    all
}

#[test]
fn determinized_table_accepts_the_same() {
    let mut spec: Spec<usize, char> = Spec::new(0);
    spec.add_epsilon_transition(0, 1);
    spec.add_token_transition(1, 'a', 1);
    spec.add_token_transition(1, 'a', 2);
    spec.add_token_transition(2, 'b', 3);
    spec.add_epsilon_transition(3, 0);
    spec.add_any_transition(2, 4);
    spec.add_accept_state(3);
    spec.add_accept_state(4);
    let (dfa, _subsets) = translate_to_dfa(&spec);
    for s in sequences(&['a', 'b'], 6) {
        assert_eq!(spec.run(&s), dfa.run(&s), "{:?}", s);
    }
}

#[test]
fn determinized_levenshtein_table() {
    let mut spec: Spec<usize, char> = Spec::new(0);
    spec.add_token_transition(0, 'o', 1);
    spec.add_any_transition(0, 1);
    spec.add_epsilon_transition(0, 1);
    spec.add_token_transition(1, 'k', 2);
    spec.add_accept_state(2);
    let (dfa, _subsets) = translate_to_dfa(&spec);
    for s in sequences(&['o', 'k'], 4) {
        assert_eq!(spec.run(&s), dfa.run(&s), "{:?}", s);
    }
}

#[test]
fn deterministic_input_keeps_its_shape() {
    let mut spec: Spec<usize, char> = Spec::new(0);
    spec.add_token_transition(0, 'a', 1);
    spec.add_token_transition(1, 'b', 2);
    spec.add_token_transition(0, 'b', 2);
    spec.add_token_transition(2, 'a', 0);
    spec.add_accept_state(2);
    let (dfa, subsets) = translate_to_dfa(&spec);
    assert_eq!(3, dfa.all_states().len());
    for s in dfa.all_states() {
        assert_eq!(1, subsets[s].len());
    }
    let sources: HashSet<usize> = dfa.all_states().into_iter().map(|s| subsets[s][0]).collect();
    assert_eq!(HashSet::from([0, 1, 2]), sources);
    assert_eq!(vec![0], subsets[dfa.initial_state()]);
    let transitions = dfa.transitions();
    assert_eq!(4, transitions.len());
    for (a, t, b) in transitions {
        assert_eq!(vec![subsets[b][0]], spec.transitions_by_token(&subsets[a][0], &t));
    }
    for s in dfa.all_states() {
        assert_eq!(spec.is_acceptable_state(&subsets[s][0]), dfa.is_acceptable_state(&s));
    }
}

#[test]
fn empty_target_has_no_transition() {
    let mut spec: Spec<usize, char> = Spec::new(0);
    spec.add_token_transition(0, 'a', 1);
    spec.add_token_transition(1, 'b', 1);
    spec.add_accept_state(1);
    let (dfa, _subsets) = translate_to_dfa(&spec);
    let mut m = DfaMachine::from_spec(dfa);
    assert!(!m.has_transition('b'));
    assert!(m.step('b').is_err());
    assert!(m.step('a').is_ok());
    assert!(m.in_accept_states());
    assert!(m.step('a').is_err());
}
