use std::collections::{HashMap, HashSet};

use fuzzy_automata::dfa::{Machine, Spec};
use fuzzy_automata::errors::TransitionError::NoSuchTransition;
use fuzzy_automata::errors::ValidationError;

fn set_of<T: std::hash::Hash + Eq>(v: Vec<T>) -> HashSet<T> {
    v.into_iter().collect()
}

#[test]
fn build_spec() {
    let mut spec = Spec::<u32, char>::new(0);
    spec.add_state(1);
    spec.add_states([1, 2, 3]);
    spec.add_accept_states([3, 4]);
    assert!(spec.add_transition(0, '1', 1).is_ok());
    assert!(spec.add_transition(1, '2', 2).is_ok());
    assert!(spec.add_transition(2, '2', 2).is_ok());
    assert!(spec.add_transition(2, 'e', 4).is_ok());
    assert_eq!(0, spec.initial_state());
    assert!(set_of(spec.all_states()).eq(&HashSet::from([0, 1, 2, 3, 4])));
    assert!(set_of(spec.accept_states()).eq(&HashSet::from([3, 4])));
    let table: HashMap<(u32, char), u32> =
        spec.transitions().into_iter().map(|(a, t, b)| ((a, t), b)).collect();
    assert!(table.eq(&HashMap::from([
        ((0, '1'), 1),
        ((1, '2'), 2),
        ((2, '2'), 2),
        ((2, 'e'), 4),
    ])));
}

#[test]
fn machine_basic() {
    let mut spec = Spec::new(0);
    spec.add_transition(0, 'a', 0).unwrap();
    spec.add_accept_states([0]);
    let mut machine = Machine::from_spec(spec);
    assert!(machine.has_transition('a'));
    assert_eq!(Ok(()), machine.step('a'));
    assert_eq!(0, machine.current_state());
    assert!(machine.in_accept_states());
}

#[test]
fn no_transition() {
    let mut spec = Spec::new(0);
    spec.add_transition(0, 'a', 0).unwrap();
    spec.add_accept_states([0]);
    let mut machine = Machine::from_spec(spec);
    assert!(!machine.has_transition('0'));
    assert_eq!(Err(NoSuchTransition), machine.step('0'));
}

#[test]
fn missing_transition_keeps_state() {
    let mut spec = Spec::<u32, char>::new(0);
    spec.add_transition(0, 'a', 1).unwrap();
    spec.add_transition(1, 'b', 0).unwrap();
    spec.add_accept_state(1);
    let mut machine = Machine::from_spec(spec);
    assert_eq!(Ok(()), machine.step('a'));
    assert_eq!(1, machine.current_state());
    assert_eq!(Err(NoSuchTransition), machine.step('a'));
    assert_eq!(1, machine.current_state());
    assert!(machine.in_accept_states());
    assert_eq!(Ok(()), machine.step('b'));
    assert_eq!(0, machine.current_state());
    assert!(!machine.in_accept_states());
}

#[test]
fn conflicting_destination_is_refused() {
    let mut spec = Spec::<u32, char>::new(0);
    assert_eq!(Ok(()), spec.add_transition(0, 'a', 1));
    assert_eq!(Ok(()), spec.add_transition(0, 'a', 1));
    assert_eq!(Err(ValidationError::AmbiguousTransition), spec.add_transition(0, 'a', 2));
    assert_eq!(Some(1), spec.transition_of(0, 'a'));
    assert!(!set_of(spec.all_states()).contains(&2));
    assert_eq!(1, spec.transitions().len());
}

#[test]
fn lookups() {
    let mut spec = Spec::<u32, char>::new(7);
    spec.add_transition(7, 'x', 8).unwrap();
    assert_eq!(Some(8), spec.transition_of(7, 'x'));
    assert_eq!(None, spec.transition_of(7, 'y'));
    assert_eq!(None, spec.transition_of(8, 'x'));
    assert!(spec.has_transition(7, 'x'));
    assert!(!spec.has_transition(8, 'x'));
    assert!(!spec.is_acceptable_state(&8));
    spec.add_accept_state(8);
    assert!(spec.is_acceptable_state(&8));
    assert!(spec.run(&['x']));
    assert!(!spec.run(&[]));
    assert!(!spec.run(&['x', 'x']));
}
