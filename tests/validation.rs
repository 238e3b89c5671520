use std::collections::HashSet;

use doa::automaton::{Automaton, State};
use doa::property::{Productive, Property, Useful};

fn set_of(states: &[State]) -> HashSet<State> {
    states.iter().copied().collect()
}

fn productive(a: &Automaton) -> Option<HashSet<State>> {
    a.validate::<Productive>().map(|p| p.0)
}

fn useful(a: &Automaton) -> Option<HashSet<State>> {
    a.validate::<Useful>().map(|u| u.0)
}

/// States q0..q3; initial q0; final q2; q0 -a-> q1 external; q1 -b-> {q2, q0}
/// and q3 -c-> {q2} internal.
fn four_state_automaton() -> Automaton {
    let mut a = Automaton::new();
    for q in 0..4 {
        a.insert_external_state(q);
    }
    a.insert_initial_state(0);
    a.insert_final_state(2);
    a.insert_external_transition(0, 10, 1);
    a.insert_internal_transition(1, 11, 2);
    a.insert_internal_transition(1, 11, 0);
    a.insert_internal_transition(3, 12, 2);
    a
}

#[test]
fn scenario_four_states() {
    let a = four_state_automaton();
    assert_eq!(productive(&a), Some(set_of(&[0, 1, 2, 3])));
    assert_eq!(useful(&a), Some(set_of(&[0, 1, 2])));
}

#[test]
fn scenario_single_state() {
    let mut a = Automaton::new();
    a.insert_external_state(0);
    a.insert_initial_state(0);
    a.insert_final_state(0);
    assert_eq!(productive(&a), Some(set_of(&[0])));
    assert_eq!(useful(&a), Some(set_of(&[0])));
}

#[test]
fn scenario_no_states() {
    let a = Automaton::new();
    assert!(a.validate::<Productive>().is_none());
    assert!(a.validate::<Useful>().is_none());
}

#[test]
fn useful_within_productive_and_reachable() {
    let a = four_state_automaton();
    let p = productive(&a).unwrap();
    let u = useful(&a).unwrap();
    assert!(u.is_subset(&p));
    assert!(!u.contains(&3));
}

#[test]
fn productive_without_transitions_is_final_states() {
    let mut a = Automaton::new();
    for q in 0..5 {
        a.insert_internal_state(q);
    }
    a.insert_initial_state(0);
    a.insert_initial_state(4);
    a.insert_final_state(1);
    a.insert_final_state(4);
    assert_eq!(productive(&a), Some(set_of(&[1, 4])));
    assert_eq!(useful(&a), Some(set_of(&[4])));
}

#[test]
fn no_initial_states_gives_empty_useful_set() {
    let mut a = four_state_automaton();
    a.initial_states.clear();
    assert_eq!(useful(&a), Some(HashSet::new()));
    assert_eq!(productive(&a), Some(set_of(&[0, 1, 2, 3])));
}

#[test]
fn validating_twice_gives_same_result() {
    let a = four_state_automaton();
    assert_eq!(productive(&a), productive(&a));
    assert_eq!(useful(&a), useful(&a));
    assert_eq!(Productive::validate(&a).map(|p| p.0), productive(&a));
}

#[test]
fn duplicate_insertion_has_no_effect() {
    let once = four_state_automaton();
    let mut twice = four_state_automaton();
    twice.insert_external_state(3);
    twice.insert_initial_state(0);
    twice.insert_final_state(2);
    twice.insert_external_transition(0, 10, 1);
    twice.insert_internal_transition(1, 11, 2);
    twice.insert_internal_transition(3, 12, 2);
    assert_eq!(twice.external_states, once.external_states);
    assert_eq!(twice.external_transitions, once.external_transitions);
    assert_eq!(twice.internal_transitions, once.internal_transitions);
    assert_eq!(productive(&twice), productive(&once));
    assert_eq!(useful(&twice), useful(&once));
}

#[test]
fn self_loop_terminates() {
    let mut a = Automaton::new();
    a.insert_initial_state(0);
    a.insert_final_state(1);
    a.insert_external_transition(0, 1, 0);
    a.insert_internal_transition(0, 2, 1);
    a.insert_internal_transition(1, 2, 1);
    a.insert_internal_transition(5, 3, 5);
    assert_eq!(productive(&a), Some(set_of(&[0, 1])));
    assert_eq!(useful(&a), Some(set_of(&[0, 1])));
}

#[test]
fn undeclared_transition_ends_count_as_states() {
    let mut a = Automaton::new();
    a.insert_internal_transition(7, 0, 8);
    assert_eq!(productive(&a), Some(HashSet::new()));
    assert_eq!(useful(&a), Some(HashSet::new()));
    a.insert_final_state(8);
    assert_eq!(productive(&a), Some(set_of(&[7, 8])));
}

#[test]
fn external_transition_is_replaced() {
    let mut a = Automaton::new();
    a.insert_initial_state(0);
    a.insert_final_state(1);
    a.insert_external_transition(0, 4, 1);
    assert_eq!(useful(&a), Some(set_of(&[0, 1])));
    a.insert_external_transition(0, 4, 2);
    assert_eq!(a.external_transitions[&0][&4], 2);
    assert_eq!(a.external_transitions[&0].len(), 1);
    assert_eq!(productive(&a), Some(set_of(&[1])));
    assert_eq!(useful(&a), Some(HashSet::new()));
}

#[test]
fn internal_transition_gathers_destinations() {
    let mut a = Automaton::new();
    a.insert_internal_transition(0, 4, 1);
    a.insert_internal_transition(0, 4, 2);
    a.insert_internal_transition(0, 4, 1);
    assert_eq!(a.internal_transitions[&0][&4], set_of(&[1, 2]));
}

#[test]
fn transition_edges_forget_labels() {
    let a = four_state_automaton();
    let edges: HashSet<(State, State)> = a.transition_edges().into_iter().collect();
    let expected: HashSet<(State, State)> = [(0, 1), (1, 2), (1, 0), (3, 2)].into_iter().collect();
    assert_eq!(edges, expected);
}

#[test]
fn state_tags_are_kept_apart() {
    let mut a = Automaton::new();
    a.insert_external_state(1);
    a.insert_internal_state(2);
    a.insert_internal_state(1);
    assert_eq!(a.external_states, set_of(&[1]));
    assert_eq!(a.internal_states, set_of(&[1, 2]));
    assert!(a.initial_states.is_empty());
    assert!(a.final_states.is_empty());
    assert_eq!(productive(&a), Some(HashSet::new()));
}
