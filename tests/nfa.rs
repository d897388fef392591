use std::collections::HashSet;

use fuzzy_automata::nfa::{translate_to_dfa, Input, Machine, Spec};

fn set_of<T: std::hash::Hash + Eq>(v: Vec<T>) -> HashSet<T> {
    v.into_iter().collect()
}

#[test]
fn spec_basic() {
    let mut spec: Spec<usize, char> = Spec::new(0);
    spec.add_accept_state(1);
    spec.add_any_transition(0, 1);
    spec.add_token_transition(0, 'a', 1);
    assert_eq!(0, spec.initial_state());
    assert_eq!(HashSet::from([1]), set_of(spec.accept_states()));
}

#[test]
fn check_internal() {
    let mut spec: Spec<usize, char> = Spec::new(0);
    spec.add_epsilon_transition(0, 1);
    assert_eq!(0, spec.tokens().len());
    spec.add_token_transition(0, 'a', 1);
    assert_eq!(1, spec.tokens().len());
}

#[test]
fn empty() {
    let spec: Spec<usize, usize> = Spec::new(0);
    assert_eq!(0, spec.initial_state());
    assert_eq!(HashSet::from([0]), set_of(spec.all_states()));
}

#[test]
fn nfa_machine_basic() {
    let mut spec: Spec<usize, char> = Spec::new(0);
    spec.add_accept_state(1);
    spec.add_epsilon_transition(0, 1);
    let m = Machine::from_spec(spec);
    assert_eq!(HashSet::from([0, 1]), set_of(m.current_states()));
}

#[test]
fn translator_basic() {
    let mut spec: Spec<usize, char> = Spec::new(0);
    spec.add_epsilon_transition(0, 1);
    spec.add_token_transition(0, 'a', 2);
    let (dfa, subsets) = translate_to_dfa(&spec);
    let initial = dfa.initial_state();
    assert_eq!(HashSet::from([0, 1]), set_of(subsets[initial].clone()));
    let all: HashSet<Vec<usize>> = dfa
        .all_states()
        .into_iter()
        .map(|s| {
            let mut v = subsets[s].clone();
            v.sort();
            v
        })
        .collect();
    assert_eq!(HashSet::from([vec![0, 1], vec![2]]), all);
}

#[test]
fn tokens_are_distinct() {
    let mut spec: Spec<usize, char> = Spec::new(0);
    spec.add_token_transition(0, 'a', 1);
    spec.add_token_transition(1, 'a', 2);
    spec.add_token_transition(1, 'b', 0);
    spec.add_any_transition(2, 0);
    assert_eq!(HashSet::from(['a', 'b']), set_of(spec.tokens()));
}

#[test]
fn targets_by_kind() {
    let mut spec: Spec<usize, char> = Spec::new(0);
    spec.add_token_transitions(0, 'a', [1, 2]);
    spec.add_token_transition(0, 'a', 1);
    spec.add_any_transitions(0, [3]);
    spec.add_epsilon_transitions(1, [2, 3]);
    assert_eq!(HashSet::from([1, 2]), set_of(spec.transitions_by_token(&0, &'a')));
    assert_eq!(2, spec.transitions_by_token(&0, &'a').len());
    assert!(spec.transitions_by_token(&0, &'b').is_empty());
    assert_eq!(HashSet::from([3]), set_of(spec.transitions_by_any(&0)));
    assert_eq!(HashSet::from([2, 3]), set_of(spec.transitions_by_epsilon(&1)));
    assert!(spec.transitions_by_epsilon(&7).is_empty());
    assert_eq!(HashSet::from([0, 1, 2, 3]), set_of(spec.all_states()));
}

#[test]
fn add_transitions_with_input() {
    let mut spec: Spec<usize, char> = Spec::new(0);
    spec.add_transitions(0, Input::Token('x'), [1, 2]);
    spec.add_states([2, 5]);
    spec.add_accept_states([5, 6]);
    assert_eq!(HashSet::from([1, 2]), set_of(spec.transitions_by_token(&0, &'x')));
    assert_eq!(HashSet::from([0, 1, 2, 5, 6]), set_of(spec.all_states()));
    assert_eq!(HashSet::from([5, 6]), set_of(spec.accept_states()));
    assert!(spec.is_acceptable_state(&6));
    assert!(!spec.is_acceptable_state(&1));
}

#[test]
fn epsilon_closure_is_transitive() {
    let mut spec: Spec<usize, char> = Spec::new(0);
    spec.add_epsilon_transition(0, 1);
    spec.add_epsilon_transition(1, 2);
    spec.add_epsilon_transition(2, 0);
    spec.add_token_transition(2, 'a', 3);
    spec.add_epsilon_transition(3, 4);
    spec.add_accept_state(4);
    let mut m = Machine::from_spec(spec);
    assert_eq!(HashSet::from([0, 1, 2]), set_of(m.current_states()));
    assert!(!m.in_accept_states());
    m.step('a');
    assert_eq!(HashSet::from([3, 4]), set_of(m.current_states()));
    assert!(m.in_accept_states());
}

#[test]
fn empty_frontier_stays_empty() {
    let mut spec: Spec<usize, char> = Spec::new(0);
    spec.add_token_transition(0, 'a', 1);
    spec.add_accept_state(1);
    let mut m = Machine::from_spec(spec);
    m.step('b');
    assert!(m.current_states().is_empty());
    assert!(!m.in_accept_states());
    m.step('a');
    assert!(m.current_states().is_empty());
    assert!(!m.in_accept_states());
}

#[test]
fn wildcard_reads_any_token() {
    let mut spec: Spec<usize, char> = Spec::new(0);
    spec.add_any_transition(0, 1);
    spec.add_accept_state(1);
    assert!(spec.run(&['z']));
    assert!(spec.run(&['a']));
    assert!(!spec.run(&[]));
    assert!(!spec.run(&['a', 'b']));
}
