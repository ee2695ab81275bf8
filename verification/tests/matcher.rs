use regex_nfa::{compile, compile_and_run};

#[test]
fn run_empty_regex() {
    assert!(compile_and_run("".to_string(), "".to_string()));
    assert!(compile_and_run("".to_string(), "afklgjlakj".to_string()))
}

#[test]
fn match_string() {
    assert!(!compile_and_run("abcd".to_string(), "".to_string()));
    assert!(compile_and_run("abcd".to_string(), "abcd".to_string()))
}

#[test]
fn match_string_not_at_start() {
    assert!(compile_and_run("abcd".to_string(), "xxxabcd".to_string()));
}

#[test]
fn match_wildcard() {
    assert!(compile_and_run("a.cd".to_string(), "abcd".to_string()));
    assert!(compile_and_run("a.cd".to_string(), "axcd".to_string()));
}

#[test]
fn escape() {
    assert!(compile_and_run("a\\.cd".to_string(), "a.cd".to_string()));
    assert!(compile_and_run("a\\\\".to_string(), "a\\".to_string()));
    assert!(!compile_and_run("a\\.cd".to_string(), "axcd".to_string()));
}

#[test]
fn check_for_start() {
    assert!(compile_and_run("^abcd".to_string(), "abcd".to_string()));
    assert!(!compile_and_run("^abcd".to_string(), "xxxabcd".to_string()));
}

#[test]
fn check_for_end() {
    assert!(compile_and_run("abcd$".to_string(), "abcd".to_string()));
    assert!(!compile_and_run("abcd$".to_string(), "abcdxxx".to_string()));
}

#[test]
fn zero_or_one() {
    assert!(compile_and_run("a?b?c?d".to_string(), "acd".to_string()));
    assert!(compile_and_run("a?b?c?d".to_string(), "ad".to_string()));
    assert!(compile_and_run("a?b?c?d".to_string(), "d".to_string()));
}

#[test]
fn zero_or_more() {
    assert!(compile_and_run("a*b*c*d".to_string(), "abcd".to_string()));
    assert!(compile_and_run("a*b*c*d".to_string(), "aacccd".to_string()));
    assert!(compile_and_run("a*b*c*d".to_string(), "d".to_string()));
}

#[test]
fn one_or_more() {
    assert!(compile_and_run("a+b+c+d".to_string(), "abcd".to_string()));
    assert!(compile_and_run("a+b+c+d".to_string(), "aaabbccccd".to_string()));
    assert!(!compile_and_run("a+b+c+d".to_string(), "aaccccd".to_string()));
}

#[test]
fn empty_pattern_matches_empty_and_anything() {
    assert!(compile_and_run("".to_string(), "".to_string()));
    assert!(compile_and_run("".to_string(), "anything".to_string()));
}

#[test]
fn run_is_deterministic() {
    let automaton = compile("a*b+c".to_string());
    let first = automaton.run("aabbc".to_string());
    let second = automaton.run("aabbc".to_string());
    assert_eq!(first, second);
    assert!(first);
}

#[test]
fn compile_is_idempotent() {
    let first = compile("a?b*c+d$".to_string());
    let second = compile("a?b*c+d$".to_string());
    for input in ["bbcd", "acd", "abcde", "d", ""] {
        assert_eq!(first.run(input.to_string()), second.run(input.to_string()));
    }
}

#[test]
fn dangling_escape_is_dropped() {
    assert!(compile_and_run("ab\\".to_string(), "ab".to_string()));
    assert!(!compile_and_run("ab\\".to_string(), "a".to_string()));
}

#[test]
fn quantifier_without_literal_is_no_op() {
    assert!(compile_and_run("?".to_string(), "xyz".to_string()));
    assert!(compile_and_run("^?".to_string(), "zzz".to_string()));
}

#[test]
fn star_without_literal_is_plain_character() {
    assert!(compile_and_run("*".to_string(), "*".to_string()));
    assert!(!compile_and_run("*".to_string(), "a".to_string()));
}

#[test]
fn dollar_in_the_middle_is_a_literal() {
    assert!(compile_and_run("a$b".to_string(), "a$b".to_string()));
    assert!(!compile_and_run("a$b".to_string(), "ab".to_string()));
}

#[test]
fn anchors_on_both_sides() {
    assert!(compile_and_run("^ab$".to_string(), "ab".to_string()));
    assert!(!compile_and_run("^ab$".to_string(), "xab".to_string()));
    assert!(!compile_and_run("^ab$".to_string(), "abx".to_string()));
}
