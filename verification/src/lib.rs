//! A restricted regular-expression matcher.
//!
//! Patterns are made of literal characters, the `.` wildcard, `\` escapes,
//! the `^` and `$` anchors, and the `?`, `*` and `+` quantifiers.  A pattern
//! is compiled once into a finite-state automaton, which can then be run
//! against any number of input strings.

pub mod dfa;
pub mod nfa;

use std::collections::HashSet;
use vstd::prelude::*;

use crate::nfa::char_step;
use crate::nfa::eps_closed;
use crate::nfa::eps_step;
use crate::nfa::lemma_closure_of_closed;
use crate::nfa::nfa_accepts;
use crate::nfa::run_states;
use crate::nfa::start_states;
use crate::nfa::step_states;
use crate::nfa::NFAChar;
use crate::nfa::Transition;
use crate::nfa::NFA;

verus! {

/// The compiler's whole state after scanning some prefix of the pattern:
/// the highest state identifier allocated so far, the three pending flags,
/// the most recent literal (the character a following quantifier binds to),
/// and the transition relation built so far.
pub ghost struct ScanState {
    /// Highest state identifier allocated so far; the next literal or
    /// wildcard edge leads from `counter` to `counter + 1`.
    pub counter: int,
    /// An unpaired backslash has been read.
    pub escape: bool,
    /// The most recent plain or escaped literal character, if any.
    pub last_literal: Option<char>,
    /// The character just scanned was an unescaped `$`.
    pub end_anchor: bool,
    /// The transition relation built so far.
    pub table: Map<(u32, NFAChar), u32>,
}

/// The effect of scanning one literal character (plain, escaped, or a
/// quantifier with no literal to bind to): a `Literal` edge from the
/// current state to a fresh one.
pub open spec fn scan_literal(st: ScanState, c: char) -> ScanState {
    ScanState {
        counter: st.counter + 1,
        escape: false,
        last_literal: Some(c),
        end_anchor: false,
        table: st.table.insert((st.counter as u32, NFAChar::If(c)), (st.counter + 1) as u32),
    }
}

/// The effect of scanning one pattern character, following the
/// per-character policy of the compiler:
///
/// - an escaped character is a plain literal;
/// - `.` adds a wildcard edge to a fresh state;
/// - `\` only sets the escape flag and allocates no state;
/// - `$` adds a provisional `Literal('$')` edge and flags the end anchor;
/// - `?` adds an epsilon bypass around the previous edge (a no-op at the
///   very start of the automaton, where there is nothing to bypass);
/// - `*` after a literal `c` replaces that literal's edge by an epsilon
///   bypass plus a `Literal(c)` self-loop at its destination;
/// - `+` after a literal `c` adds a `Literal(c)` self-loop at its
///   destination;
/// - anything else is a plain literal.
pub open spec fn scan_step(st: ScanState, c: char) -> ScanState {
    if st.escape {
        scan_literal(st, c)
    } else if c == '.' {
        ScanState {
            counter: st.counter + 1,
            escape: false,
            last_literal: st.last_literal,
            end_anchor: false,
            table: st.table.insert(
                (st.counter as u32, NFAChar::Else),
                (st.counter + 1) as u32,
            ),
        }
    } else if c == '\\' {
        ScanState {
            counter: st.counter,
            escape: true,
            last_literal: st.last_literal,
            end_anchor: false,
            table: st.table,
        }
    } else if c == '$' {
        ScanState {
            counter: st.counter + 1,
            escape: false,
            last_literal: st.last_literal,
            end_anchor: true,
            table: st.table.insert(
                (st.counter as u32, NFAChar::If('$')),
                (st.counter + 1) as u32,
            ),
        }
    } else if c == '?' {
        ScanState {
            counter: st.counter,
            escape: false,
            last_literal: st.last_literal,
            end_anchor: false,
            table: if st.counter >= 1 {
                st.table.insert(((st.counter - 1) as u32, NFAChar::Epsilon), st.counter as u32)
            } else {
                st.table
            },
        }
    } else if c == '*' {
        match st.last_literal {
            Some(lc) => ScanState {
                counter: st.counter,
                escape: false,
                last_literal: st.last_literal,
                end_anchor: false,
                table: st.table.remove(((st.counter - 1) as u32, NFAChar::If(lc))).insert(
                    ((st.counter - 1) as u32, NFAChar::Epsilon),
                    st.counter as u32,
                ).insert((st.counter as u32, NFAChar::If(lc)), st.counter as u32),
            },
            None => scan_literal(st, c),
        }
    } else if c == '+' {
        match st.last_literal {
            Some(lc) => ScanState {
                counter: st.counter,
                escape: false,
                last_literal: st.last_literal,
                end_anchor: false,
                table: st.table.insert((st.counter as u32, NFAChar::If(lc)), st.counter as u32),
            },
            None => scan_literal(st, c),
        }
    } else {
        scan_literal(st, c)
    }
}

/// Counter bookkeeping that every reachable scan state satisfies: the
/// counter never goes negative, and once a literal has been recorded (or a
/// `$` just scanned) at least one state has been allocated.
pub open spec fn scan_wf(st: ScanState) -> bool {
    &&& st.counter >= 0
    &&& (st.last_literal is Some ==> st.counter >= 1)
    &&& (st.end_anchor ==> st.counter >= 1)
}

/// The scan state after folding `scan_step` over all of `p`.
pub open spec fn scan_fold(st: ScanState, p: Seq<char>) -> ScanState
    decreases p.len(),
{
    if p.len() == 0 {
        st
    } else {
        scan_step(scan_fold(st, p.drop_last()), p.last())
    }
}

/// Whether the pattern begins with a start anchor.
pub open spec fn start_anchored(p: Seq<char>) -> bool {
    p.len() > 0 && p[0] == '^'
}

/// The compiler's initial state: an anchored pattern starts from an empty
/// relation, an unanchored one from a wildcard self-loop at state `0` that
/// tolerates arbitrary input before the match begins.
pub open spec fn scan_start(p: Seq<char>) -> ScanState {
    ScanState {
        counter: 0,
        escape: false,
        last_literal: None,
        end_anchor: false,
        table: if start_anchored(p) {
            Map::empty()
        } else {
            Map::empty().insert((0u32, NFAChar::Else), 0u32)
        },
    }
}

/// The characters the scan actually consumes: a leading `^` is an anchor
/// marker, not part of the automaton.
pub open spec fn scan_body(p: Seq<char>) -> Seq<char> {
    if start_anchored(p) {
        p.drop_first()
    } else {
        p
    }
}

/// The compiler's state after scanning the whole pattern.
pub open spec fn scanned(p: Seq<char>) -> ScanState {
    scan_fold(scan_start(p), scan_body(p))
}

/// The finished transition relation for pattern `p`.  A trailing `$`
/// consumes no state: its provisional edge is dropped again, and no
/// trailing wildcard loop is added, so nothing may follow the match.
/// Otherwise a wildcard self-loop at the final state tolerates arbitrary
/// trailing input.
pub open spec fn compiled_table(p: Seq<char>) -> Map<(u32, NFAChar), u32> {
    let st = scanned(p);
    if st.end_anchor {
        st.table.remove((((st.counter - 1) as u32), NFAChar::If('$')))
    } else {
        st.table.insert((st.counter as u32, NFAChar::Else), st.counter as u32)
    }
}

/// The single accepting state of the compiled automaton.
pub open spec fn accepting_state(p: Seq<char>) -> u32 {
    let st = scanned(p);
    if st.end_anchor {
        (st.counter - 1) as u32
    } else {
        st.counter as u32
    }
}

/// The accepting-state set of the compiled automaton: a singleton.
pub open spec fn compiled_accepting(p: Seq<char>) -> Set<u32> {
    Set::new(|s: u32| s == accepting_state(p))
}

/// What the whole matcher decides: whether the automaton compiled from
/// pattern `p` accepts `input`.
pub open spec fn pattern_matches(p: Seq<char>, input: Seq<char>) -> bool {
    nfa_accepts(compiled_table(p), compiled_accepting(p), input)
}

proof fn lemma_scan_step_wf(st: ScanState, c: char)
    requires
        scan_wf(st),
    ensures
        scan_wf(scan_step(st, c)),
        st.counter <= scan_step(st, c).counter <= st.counter + 1,
{
}

proof fn lemma_scan_fold_wf(st: ScanState, p: Seq<char>)
    requires
        scan_wf(st),
    ensures
        scan_wf(scan_fold(st, p)),
        st.counter <= scan_fold(st, p).counter <= st.counter + p.len(),
    decreases p.len(),
{
    if p.len() != 0 {
        lemma_scan_fold_wf(st, p.drop_last());
        lemma_scan_step_wf(scan_fold(st, p.drop_last()), p.last());
    }
}

/// Matching is deterministic: the decision is a function of the pattern
/// and the input alone, so identical inputs always yield identical
/// results, however many times the pattern is compiled and run.
pub proof fn lemma_match_deterministic(
    p1: Seq<char>,
    input1: Seq<char>,
    p2: Seq<char>,
    input2: Seq<char>,
)
    requires
        p1 == p2,
        input1 == input2,
    ensures
        pattern_matches(p1, input1) == pattern_matches(p2, input2),
{
}

/// Compiling the same pattern twice yields the same automaton, so running
/// both compiled forms against the same input yields the same boolean.
pub proof fn lemma_compile_idempotent(p1: Seq<char>, p2: Seq<char>, input: Seq<char>)
    requires
        p1 == p2,
    ensures
        compiled_table(p1) == compiled_table(p2),
        compiled_accepting(p1) == compiled_accepting(p2),
        pattern_matches(p1, input) == pattern_matches(p2, input),
{
}

proof fn lemma_start_loop_step(m: Map<(u32, NFAChar), u32>, src: Set<u32>, c: char)
    requires
        src == Set::new(|s: u32| s == 0u32),
        m.contains_key((0u32, NFAChar::Else)),
        m[(0u32, NFAChar::Else)] == 0u32,
        !m.contains_key((0u32, NFAChar::Epsilon)),
        forall|k: (u32, NFAChar)| #[trigger] m.contains_key(k) ==> k == (0u32, NFAChar::Else),
    ensures
        step_states(m, src, c) == src,
{
    assert(eps_closed(m, src)) by {
        assert forall|s: u32| #[trigger] src.contains(s) implies match eps_step(m, s) {
            Some(t) => src.contains(t),
            None => true,
        } by {
            assert(s == 0);
        }
    }
    let succ = Set::new(
        |t: u32| exists|s: u32| #[trigger] src.contains(s) && char_step(m, s, c) == Some(t),
    );
    if m.contains_key((0u32, NFAChar::If(c))) {
        assert((0u32, NFAChar::If(c)) == (0u32, NFAChar::Else));
        assert(false);
    }
    assert(char_step(m, 0u32, c) == Some(0u32));
    assert forall|t: u32| succ.contains(t) implies src.contains(t) by {
        let s = choose|s: u32| #[trigger] src.contains(s) && char_step(m, s, c) == Some(t);
        assert(s == 0);
    }
    assert(src.contains(0u32));
    assert(succ.contains(0u32));
    assert(succ =~= src);
    lemma_closure_of_closed(m, src);
}

proof fn lemma_start_loop_run(
    m: Map<(u32, NFAChar), u32>,
    src: Set<u32>,
    input: Seq<char>,
)
    requires
        src == Set::new(|s: u32| s == 0u32),
        m.contains_key((0u32, NFAChar::Else)),
        m[(0u32, NFAChar::Else)] == 0u32,
        !m.contains_key((0u32, NFAChar::Epsilon)),
        forall|k: (u32, NFAChar)| #[trigger] m.contains_key(k) ==> k == (0u32, NFAChar::Else),
    ensures
        run_states(m, src, input) == src,
    decreases input.len(),
{
    if input.len() != 0 {
        lemma_start_loop_run(m, src, input.drop_last());
        lemma_start_loop_step(m, src, input.last());
    }
}

/// The empty pattern matches every input, the empty string included: its
/// automaton is a single state that is both start and accepting, with a
/// wildcard self-loop that consumes any input.
pub proof fn lemma_empty_pattern_matches_all(input: Seq<char>)
    ensures
        pattern_matches(Seq::<char>::empty(), input),
{
    let p = Seq::<char>::empty();
    let m = compiled_table(p);
    let acc = compiled_accepting(p);
    assert(scan_body(p).len() == 0);
    assert(scanned(p) == scan_start(p));
    assert(m == Map::<(u32, NFAChar), u32>::empty().insert((0u32, NFAChar::Else), 0u32).insert(
        (0u32, NFAChar::Else),
        0u32,
    ));
    assert(m.contains_key((0u32, NFAChar::Else)));
    assert(m[(0u32, NFAChar::Else)] == 0u32);
    assert(!m.contains_key((0u32, NFAChar::Epsilon)));
    assert forall|k: (u32, NFAChar)| #[trigger] m.contains_key(k) implies k == (
        0u32,
        NFAChar::Else,
    ) by {
        assert(!Map::<(u32, NFAChar), u32>::empty().contains_key(k));
    }
    let src = Set::new(|s: u32| s == 0u32);
    assert(src =~= Set::new(|s: u32| s == 0));
    assert(eps_closed(m, src)) by {
        assert forall|s: u32| #[trigger] src.contains(s) implies match eps_step(m, s) {
            Some(t) => src.contains(t),
            None => true,
        } by {
            assert(s == 0);
        }
    }
    lemma_closure_of_closed(m, src);
    assert(start_states(m) == src);
    lemma_start_loop_run(m, src, input);
    assert(accepting_state(p) == 0u32);
    assert(run_states(m, start_states(m), input).contains(0u32));
    assert(acc.contains(0u32));
}

/// Look for a leading `^` and lay down the initial relation: unless the
/// pattern is start-anchored, a wildcard self-loop at state `0` lets the
/// match begin anywhere in the input.
fn check_start(expression: &String) -> (r: (bool, Transition))
    ensures
        r.0 == start_anchored(expression@),
        r.1.wf(),
        r.1@ == scan_start(expression@).table,
{
    let mut transitions = Transition::new();
    // If first char is ^ then process differently
    if expression.as_str().unicode_len() > 0 && expression.as_str().get_char(0) == '^' {
        return (true, transitions);
    }
    // add loop until first char is read
    transitions.insert((0, NFAChar::Else), 0);
    (false, transitions)
}

/// Apply the per-character policy of `scan_step` to the running compiler
/// state, editing the transition relation in place.
fn match_character(
    c: char,
    curr_state: &mut u32,
    transitions: &mut Transition,
    escape: &mut bool,
    last_char: &mut Option<char>,
    end: &mut bool,
)
    requires
        old(transitions).wf(),
        *old(curr_state) >= 1,
        *old(last_char) is Some ==> *old(curr_state) >= 2,
        *old(end) == false,
    ensures
        ({
            let pre = ScanState {
                counter: *old(curr_state) - 1,
                escape: *old(escape),
                last_literal: *old(last_char),
                end_anchor: false,
                table: old(transitions)@,
            };
            let post = scan_step(pre, c);
            &&& *final(curr_state) == post.counter
            &&& *final(escape) == post.escape
            &&& *final(last_char) == post.last_literal
            &&& *final(end) == post.end_anchor
            &&& final(transitions)@ == post.table
            &&& final(transitions).wf()
        }),
{
    if !*escape {
        if c == '.' {
            // wildcard
            transitions.insert((*curr_state - 1, NFAChar::Else), *curr_state);
        } else if c == '\\' {
            // escape
            *escape = true;
            *curr_state = *curr_state - 1;
        } else if c == '$' {
            // end
            *end = true;
            transitions.insert((*curr_state - 1, NFAChar::If(c)), *curr_state);
        } else if c == '?' {
            // zero or one; with no previous edge to bypass this is a no-op
            *curr_state = *curr_state - 1;
            if *curr_state >= 1 {
                transitions.insert((*curr_state - 1, NFAChar::Epsilon), *curr_state);
            }
        } else if c == '*' {
            // zero or more
            match *last_char {
                Some(lc) => {
                    *curr_state = *curr_state - 1;
                    transitions.remove(&(*curr_state - 1, NFAChar::If(lc)));
                    transitions.insert((*curr_state - 1, NFAChar::Epsilon), *curr_state);
                    transitions.insert((*curr_state, NFAChar::If(lc)), *curr_state);
                },
                None => {
                    // normal character
                    transitions.insert((*curr_state - 1, NFAChar::If(c)), *curr_state);
                    *last_char = Some(c);
                },
            }
        } else if c == '+' {
            // one or more
            match *last_char {
                Some(lc) => {
                    *curr_state = *curr_state - 1;
                    transitions.insert((*curr_state, NFAChar::If(lc)), *curr_state);
                },
                None => {
                    // normal character
                    transitions.insert((*curr_state - 1, NFAChar::If(c)), *curr_state);
                    *last_char = Some(c);
                },
            }
        } else {
            // normal character
            transitions.insert((*curr_state - 1, NFAChar::If(c)), *curr_state);
            *last_char = Some(c);
        }
    } else {
        // insert escaped character
        transitions.insert((*curr_state - 1, NFAChar::If(c)), *curr_state);
        *last_char = Some(c);
        *escape = false;
    }
}

/// Scan the pattern left to right, building up the transition relation;
/// returns the final value of the state counter.
fn iterate_through_expression(
    expression: String,
    transitions: &mut Transition,
    start: &mut bool,
    end: &mut bool,
) -> (r: u32)
    requires
        old(transitions).wf(),
        expression@.len() <= u32::MAX,
        *old(start) == start_anchored(expression@),
        *old(end) == false,
    ensures
        ({
            let st0 = ScanState {
                counter: 0,
                escape: false,
                last_literal: None,
                end_anchor: false,
                table: old(transitions)@,
            };
            let post = scan_fold(st0, scan_body(expression@));
            &&& r == post.counter
            &&& *final(end) == post.end_anchor
            &&& final(transitions)@ == post.table
            &&& final(transitions).wf()
            &&& *final(start) == false
        }),
{
    let ghost st0 = ScanState {
        counter: 0,
        escape: false,
        last_literal: None,
        end_anchor: false,
        table: transitions@,
    };
    let ghost body = scan_body(expression@);
    let mut current_state: u32 = 0;
    let mut escape = false;
    let mut last_char: Option<char> = None;
    let expr = expression.as_str();
    let n = expr.unicode_len();
    let mut i: usize = 0;
    // A leading ^ was consumed by check_start and scans no state
    if *start {
        *start = false;
        i = 1;
    }
    let ghost off = i as int;
    proof {
        assert(body.take(0) =~= Seq::<char>::empty());
    }
    while i < n
        invariant
            off == if start_anchored(expression@) {
                1int
            } else {
                0int
            },
            off <= i <= n,
            n == expression@.len(),
            expression@.len() <= u32::MAX,
            expr@ == expression@,
            body == scan_body(expression@),
            transitions.wf(),
            *start == false,
            scan_wf(scan_fold(st0, body.take(i - off))),
            current_state <= i - off,
            ({
                let cur = scan_fold(st0, body.take(i - off));
                &&& current_state == cur.counter
                &&& escape == cur.escape
                &&& last_char == cur.last_literal
                &&& *end == cur.end_anchor
                &&& transitions@ == cur.table
            }),
        decreases n - i,
    {
        let ghost cur = scan_fold(st0, body.take(i - off));
        let c = expr.get_char(i);
        proof {
            assert(body[i - off] == expression@[i as int]);
        }
        current_state = current_state + 1;
        *end = false;
        match_character(c, &mut current_state, transitions, &mut escape, &mut last_char, end);
        proof {
            assert(body.take(i - off + 1).drop_last() =~= body.take(i - off));
            assert(body.take(i - off + 1).last() == body[i - off]);
            lemma_scan_step_wf(cur, c);
        }
        i += 1;
    }
    proof {
        assert(body.take(n - off) =~= body);
    }
    current_state
}

/// Finish the automaton: a trailing `$` takes back its provisional edge
/// and its state, anything else gets a wildcard self-loop at the final
/// state so that arbitrary trailing input is tolerated.
fn check_end(transitions: &mut Transition, curr_state: &mut u32, end: &bool)
    requires
        old(transitions).wf(),
        *end ==> *old(curr_state) >= 1,
    ensures
        final(transitions).wf(),
        *end ==> *final(curr_state) == *old(curr_state) - 1 && final(transitions)@ == old(
            transitions,
        )@.remove(((*old(curr_state) - 1) as u32, NFAChar::If('$'))),
        !*end ==> *final(curr_state) == *old(curr_state) && final(transitions)@ == old(
            transitions,
        )@.insert((*old(curr_state), NFAChar::Else), *old(curr_state)),
{
    // If last char is $ then remove last transition
    if *end {
        *curr_state = *curr_state - 1;
        transitions.remove(&(*curr_state, NFAChar::If('$')));
    } else {
        // add loop after end of expression is read
        transitions.insert((*curr_state, NFAChar::Else), *curr_state);
    }
}

/// Compile a regular expression into an automaton.
/// The result can be reused for multiple runs.
pub fn compile(expression: String) -> (r: NFA)
    requires
        expression@.len() <= u32::MAX,
    ensures
        r.wf(),
        r.trans() == compiled_table(expression@),
        r.acc() == compiled_accepting(expression@),
{
    let ghost p = expression@;
    let (start, transitions) = check_start(&expression);
    let mut start = start;
    let mut transitions = transitions;
    let mut end = false;

    let mut current_state = iterate_through_expression(
        expression,
        &mut transitions,
        &mut start,
        &mut end,
    );
    proof {
        lemma_scan_fold_wf(scan_start(p), scan_body(p));
    }

    check_end(&mut transitions, &mut current_state, &end);

    // add accepting state
    let mut accepting_states = HashSet::new();
    accepting_states.insert(current_state);

    let r = NFA::new(transitions, accepting_states);
    proof {
        assert(r.acc() =~= compiled_accepting(p));
    }
    r
}

/// Compile `expression` and run the automaton once against `input`.
pub fn compile_and_run(expression: String, input: String) -> (r: bool)
    requires
        expression@.len() <= u32::MAX,
    ensures
        r == pattern_matches(expression@, input@),
{
    let dfa = compile(expression);
    dfa.run(input)
}

} // verus!
