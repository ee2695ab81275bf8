use regex_nfa::dfa::{DFATransition, DFA};
use std::collections::HashSet;

#[test]
fn dfa_run_on_empty_string() {
    let mut accepting_states = HashSet::new();
    accepting_states.insert(0);
    let dfa = DFA::new(DFATransition::new(), accepting_states);

    assert!(dfa.run("".to_string()));

    let mut accepting_states = HashSet::new();
    accepting_states.insert(1);
    let mut transitions = DFATransition::new();
    transitions.insert((0, Some('0')), 1);
    let dfa = DFA::new(transitions, accepting_states);

    assert!(!dfa.run("".to_string()));
}

#[test]
fn dfa_run_on_string_length_one() {
    let mut accepting_states = HashSet::new();
    accepting_states.insert(1);
    let mut transitions = DFATransition::new();
    transitions.insert((0, Some('0')), 1);
    let dfa = DFA::new(transitions, accepting_states);

    assert!(dfa.run("0".to_string()));
    assert!(!dfa.run("1".to_string()));

    let mut accepting_states = HashSet::new();
    accepting_states.insert(1);
    accepting_states.insert(2);
    let mut transitions = DFATransition::new();
    transitions.insert((0, Some('0')), 1);
    transitions.insert((0, Some('1')), 2);
    let dfa = DFA::new(transitions, accepting_states);

    assert!(dfa.run("1".to_string()));
}

#[test]
fn dfa_transition_on_all() {
    let mut accepting_states = HashSet::new();
    accepting_states.insert(1);
    let mut transitions = DFATransition::new();
    transitions.insert((0, None), 1);
    let dfa = DFA::new(transitions, accepting_states);

    assert!(dfa.run("0".to_string()));
}

#[test]
fn dfa_transition_on_some() {
    let mut accepting_states = HashSet::new();
    accepting_states.insert(1);
    let mut transitions = DFATransition::new();
    transitions.insert((0, None), 1);
    transitions.insert((0, Some('0')), 2);
    let dfa = DFA::new(transitions, accepting_states);

    assert!(!dfa.run("0".to_string()));

    assert!(dfa.run("1".to_string()));
}

#[test]
fn dfa_use_loop_at_start() {
    let mut accepting_states = HashSet::new();
    accepting_states.insert(1);
    let mut transitions = DFATransition::new();
    transitions.insert((0, None), 0);
    transitions.insert((0, Some('1')), 1);
    let dfa = DFA::new(transitions, accepting_states);

    assert!(dfa.run("0001".to_string()));
}

#[test]
fn dfa_rejects_when_stuck() {
    let mut accepting_states = HashSet::new();
    accepting_states.insert(1);
    let mut transitions = DFATransition::new();
    transitions.insert((0, Some('0')), 1);
    let dfa = DFA::new(transitions, accepting_states);

    assert!(!dfa.run("00".to_string()));
}
