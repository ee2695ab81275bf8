use regex_nfa::nfa::{NFAChar, Transition, NFA};
use std::collections::HashSet;

#[test]
fn nfa_run_on_empty_string() {
    let mut accepting_states = HashSet::new();
    accepting_states.insert(0);
    let nfa = NFA::new(Transition::new(), accepting_states);

    assert!(nfa.run("".to_string()));

    let mut accepting_states = HashSet::new();
    accepting_states.insert(1);
    let mut transitions = Transition::new();
    transitions.insert((0, NFAChar::If('0')), 1);
    let nfa = NFA::new(transitions, accepting_states);

    assert!(!nfa.run("".to_string()));
}

#[test]
fn nfa_run_on_string_length_one() {
    let mut accepting_states = HashSet::new();
    accepting_states.insert(1);
    let mut transitions = Transition::new();
    transitions.insert((0, NFAChar::If('0')), 1);
    let nfa = NFA::new(transitions, accepting_states);

    assert!(nfa.run("0".to_string()));
    assert!(!nfa.run("1".to_string()));

    let mut accepting_states = HashSet::new();
    accepting_states.insert(1);
    accepting_states.insert(2);
    let mut transitions = Transition::new();
    transitions.insert((0, NFAChar::If('0')), 1);
    transitions.insert((0, NFAChar::If('1')), 2);
    let nfa = NFA::new(transitions, accepting_states);

    assert!(nfa.run("1".to_string()));
}

#[test]
fn nfa_transition_on_all() {
    let mut accepting_states = HashSet::new();
    accepting_states.insert(1);
    let mut transitions = Transition::new();
    transitions.insert((0, NFAChar::Else), 1);
    let nfa = NFA::new(transitions, accepting_states);

    assert!(nfa.run("0".to_string()));
}

#[test]
fn nfa_transition_on_some() {
    let mut accepting_states = HashSet::new();
    accepting_states.insert(1);
    let mut transitions = Transition::new();
    transitions.insert((0, NFAChar::Else), 1);
    transitions.insert((0, NFAChar::If('0')), 2);
    let nfa = NFA::new(transitions, accepting_states);

    assert!(!nfa.run("0".to_string()));

    assert!(nfa.run("1".to_string()));
}

#[test]
fn nfa_use_loop_at_start() {
    let mut accepting_states = HashSet::new();
    accepting_states.insert(1);
    let mut transitions = Transition::new();
    transitions.insert((0, NFAChar::Else), 0);
    transitions.insert((0, NFAChar::If('1')), 1);
    let nfa = NFA::new(transitions, accepting_states);

    assert!(nfa.run("0001".to_string()));
}

#[test]
fn epsilon_transition() {
    let mut accepting_states = HashSet::new();
    accepting_states.insert(1);
    let mut transitions = Transition::new();
    transitions.insert((0, NFAChar::Epsilon), 1);
    let nfa = NFA::new(transitions, accepting_states);

    assert!(nfa.run("".to_string()));

    let mut accepting_states = HashSet::new();
    accepting_states.insert(4);

    let mut transitions = Transition::new();
    transitions.insert((0, NFAChar::If('a')), 1);
    transitions.insert((0, NFAChar::Epsilon), 1);
    transitions.insert((1, NFAChar::If('b')), 2);
    transitions.insert((1, NFAChar::Epsilon), 2);
    transitions.insert((2, NFAChar::If('c')), 3);
    transitions.insert((2, NFAChar::Epsilon), 3);
    transitions.insert((3, NFAChar::If('d')), 4);

    let nfa = NFA::new(transitions, accepting_states);

    assert!(nfa.run("acd".to_string()));
}

#[test]
fn transition_insert_replaces_destination() {
    let mut accepting_states = HashSet::new();
    accepting_states.insert(2);
    let mut transitions = Transition::new();
    transitions.insert((0, NFAChar::If('0')), 1);
    transitions.insert((0, NFAChar::If('0')), 2);
    let nfa = NFA::new(transitions, accepting_states);

    assert!(nfa.run("0".to_string()));
}

#[test]
fn transition_remove_drops_edge() {
    let mut accepting_states = HashSet::new();
    accepting_states.insert(1);
    let mut transitions = Transition::new();
    transitions.insert((0, NFAChar::If('0')), 1);
    transitions.remove(&(0, NFAChar::If('0')));
    let nfa = NFA::new(transitions, accepting_states);

    assert!(!nfa.run("0".to_string()));
}

#[test]
fn epsilon_cycle_terminates() {
    let mut accepting_states = HashSet::new();
    accepting_states.insert(2);
    let mut transitions = Transition::new();
    transitions.insert((0, NFAChar::Epsilon), 1);
    transitions.insert((1, NFAChar::Epsilon), 0);
    transitions.insert((1, NFAChar::If('a')), 2);
    let nfa = NFA::new(transitions, accepting_states);

    assert!(nfa.run("a".to_string()));
    assert!(!nfa.run("b".to_string()));
}
