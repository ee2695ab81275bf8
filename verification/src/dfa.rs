//! A deterministic finite automaton: the earlier, epsilon-free automaton
//! representation.
//!
//! States are `u32` identifiers; state `0` is always the start state.  A
//! transition keyed on `None` is a catch-all taken only when no `Some(c)`
//! transition matches the current character.

use std::collections::HashSet;
use vstd::prelude::*;

verus! {

/// True when no two entries of `s` share a key.
pub open spec fn dfa_distinct_keys(s: Seq<((u32, Option<char>), u32)>) -> bool {
    forall|i: int, j: int| 0 <= i < j < s.len() ==> s[i].0 != s[j].0
}

/// The partial map denoted by a sequence of table entries.
pub open spec fn dfa_table_map(s: Seq<((u32, Option<char>), u32)>) -> Map<(u32, Option<char>), u32> {
    Map::new(
        |k: (u32, Option<char>)| exists|i: int| 0 <= i < s.len() && s[i].0 == k,
        |k: (u32, Option<char>)| s[choose|i: int| 0 <= i < s.len() && s[i].0 == k].1,
    )
}

proof fn lemma_dfa_table_map_index(s: Seq<((u32, Option<char>), u32)>, i: int)
    requires
        dfa_distinct_keys(s),
        0 <= i < s.len(),
    ensures
        dfa_table_map(s).contains_key(s[i].0),
        dfa_table_map(s)[s[i].0] == s[i].1,
{
    let k = s[i].0;
    assert(exists|j: int| 0 <= j < s.len() && s[j].0 == k);
    let j = choose|j: int| 0 <= j < s.len() && s[j].0 == k;
    assert(j == i);
}

proof fn lemma_dfa_table_map_absent(s: Seq<((u32, Option<char>), u32)>, k: (u32, Option<char>))
    requires
        forall|i: int| 0 <= i < s.len() ==> s[i].0 != k,
    ensures
        !dfa_table_map(s).contains_key(k),
{
}

/// Appending an entry whose key is absent adds exactly that binding.
proof fn lemma_dfa_push_fresh_key(
    s: Seq<((u32, Option<char>), u32)>,
    key: (u32, Option<char>),
    value: u32,
)
    requires
        dfa_distinct_keys(s),
        forall|i: int| 0 <= i < s.len() ==> s[i].0 != key,
    ensures
        dfa_distinct_keys(s.push((key, value))),
        dfa_table_map(s.push((key, value))) == dfa_table_map(s).insert(key, value),
{
    let t = s.push((key, value));
    assert forall|a: int, b: int| 0 <= a < b < t.len() implies t[a].0 != t[b].0 by {
        if b == s.len() {
            assert(t[a] == s[a]);
        } else {
            assert(t[a] == s[a]);
            assert(t[b] == s[b]);
        }
    }
    assert forall|q: (u32, Option<char>)| dfa_table_map(t).contains_key(q) implies dfa_table_map(
        t,
    )[q] == dfa_table_map(s).insert(key, value)[q] by {
        let b = choose|b: int| 0 <= b < t.len() && t[b].0 == q;
        lemma_dfa_table_map_index(t, b);
        if b < s.len() {
            assert(t[b] == s[b]);
            lemma_dfa_table_map_index(s, b);
        }
    }
    assert forall|q: (u32, Option<char>)|
        dfa_table_map(s).insert(key, value).contains_key(q) implies dfa_table_map(
        t,
    ).contains_key(q) by {
        if q == key {
            assert(t[s.len() as int].0 == q);
        } else {
            let a = choose|a: int| 0 <= a < s.len() && s[a].0 == q;
            assert(t[a].0 == q);
        }
    }
    assert(dfa_table_map(t) =~= dfa_table_map(s).insert(key, value));
}

/// Replacing the value of the entry at `i` updates exactly its key.
proof fn lemma_dfa_update_value(s: Seq<((u32, Option<char>), u32)>, i: int, value: u32)
    requires
        dfa_distinct_keys(s),
        0 <= i < s.len(),
    ensures
        dfa_distinct_keys(s.update(i, (s[i].0, value))),
        dfa_table_map(s.update(i, (s[i].0, value))) == dfa_table_map(s).insert(s[i].0, value),
{
    let t = s.update(i, (s[i].0, value));
    let k = s[i].0;
    assert forall|a: int, b: int| 0 <= a < b < t.len() implies t[a].0 != t[b].0 by {
        assert(t[a].0 == s[a].0);
        assert(t[b].0 == s[b].0);
    }
    assert forall|q: (u32, Option<char>)| dfa_table_map(t).contains_key(q) implies dfa_table_map(
        t,
    )[q] == dfa_table_map(s).insert(k, value)[q] by {
        let b = choose|b: int| 0 <= b < t.len() && t[b].0 == q;
        lemma_dfa_table_map_index(t, b);
        if b != i {
            assert(t[b] == s[b]);
            lemma_dfa_table_map_index(s, b);
        }
    }
    assert forall|q: (u32, Option<char>)|
        dfa_table_map(s).insert(k, value).contains_key(q) implies dfa_table_map(t).contains_key(
        q,
    ) by {
        if q == k {
            assert(t[i].0 == q);
        } else {
            let a = choose|a: int| 0 <= a < s.len() && s[a].0 == q;
            assert(t[a].0 == q);
        }
    }
    assert(dfa_table_map(t) =~= dfa_table_map(s).insert(k, value));
}

/// The transition function of a deterministic automaton, stored as a
/// vector of entries with pairwise-distinct keys.
pub struct DFATransition {
    entries: Vec<((u32, Option<char>), u32)>,
}

fn option_char_eq(a: &Option<char>, b: &Option<char>) -> (r: bool)
    ensures
        r == (*a == *b),
{
    match (a, b) {
        (Some(x), Some(y)) => *x == *y,
        (None, None) => true,
        _ => false,
    }
}

impl View for DFATransition {
    type V = Map<(u32, Option<char>), u32>;

    closed spec fn view(&self) -> Map<(u32, Option<char>), u32> {
        dfa_table_map(self.entries@)
    }
}

impl DFATransition {
    /// Well-formedness: the stored entries denote a function.
    pub closed spec fn wf(&self) -> bool {
        dfa_distinct_keys(self.entries@)
    }

    /// An empty transition function.
    pub fn new() -> (r: DFATransition)
        ensures
            r.wf(),
            r@ == Map::<(u32, Option<char>), u32>::empty(),
    {
        let r = DFATransition { entries: Vec::new() };
        proof {
            assert(r@ =~= Map::<(u32, Option<char>), u32>::empty());
        }
        r
    }

    /// The index of the entry holding `key`, if any.
    fn find(&self, key: (u32, Option<char>)) -> (r: Option<usize>)
        ensures
            match r {
                Some(i) => i < self.entries@.len() && self.entries@[i as int].0 == key,
                None => forall|i: int| 0 <= i < self.entries@.len() ==> self.entries@[i].0 != key,
            },
    {
        let mut i: usize = 0;
        while i < self.entries.len()
            invariant
                i <= self.entries@.len(),
                forall|j: int| 0 <= j < i ==> self.entries@[j].0 != key,
            decreases self.entries@.len() - i,
        {
            let k = &self.entries[i].0;
            if k.0 == key.0 && option_char_eq(&k.1, &key.1) {
                return Some(i);
            }
            i += 1;
        }
        None
    }

    /// Map `key` to `value`, replacing any earlier destination for `key`.
    pub fn insert(&mut self, key: (u32, Option<char>), value: u32)
        requires
            old(self).wf(),
        ensures
            final(self).wf(),
            final(self)@ == old(self)@.insert(key, value),
    {
        let ghost s0 = self.entries@;
        match self.find(key) {
            Some(i) => {
                let dest = &mut self.entries[i];
                *dest = (key, value);
                proof {
                    assert(self.entries@ =~= s0.update(i as int, (s0[i as int].0, value)));
                    lemma_dfa_update_value(s0, i as int, value);
                }
            },
            None => {
                self.entries.push((key, value));
                proof {
                    lemma_dfa_push_fresh_key(s0, key, value);
                }
            },
        }
    }

    /// The destination state for `key`, if the function is defined on it.
    pub fn get(&self, key: (u32, Option<char>)) -> (r: Option<u32>)
        requires
            self.wf(),
        ensures
            r == if self@.contains_key(key) {
                Some(self@[key])
            } else {
                None::<u32>
            },
    {
        match self.find(key) {
            Some(i) => {
                proof {
                    lemma_dfa_table_map_index(self.entries@, i as int);
                }
                Some(self.entries[i].1)
            },
            None => {
                proof {
                    lemma_dfa_table_map_absent(self.entries@, key);
                }
                None
            },
        }
    }
}

/// Where the automaton goes from state `s` on character `c`: the `Some(c)`
/// transition if there is one, else the catch-all `None` transition, else
/// nowhere (the run rejects).
pub open spec fn dfa_step(m: Map<(u32, Option<char>), u32>, s: u32, c: char) -> Option<u32> {
    if m.contains_key((s, Some(c))) {
        Some(m[(s, Some(c))])
    } else if m.contains_key((s, None)) {
        Some(m[(s, None)])
    } else {
        None
    }
}

/// The state reached from the start state after consuming all of `input`,
/// if no step got stuck.
pub open spec fn dfa_run_state(m: Map<(u32, Option<char>), u32>, input: Seq<char>) -> Option<u32>
    decreases input.len(),
{
    if input.len() == 0 {
        Some(0u32)
    } else {
        match dfa_run_state(m, input.drop_last()) {
            Some(s) => dfa_step(m, s, input.last()),
            None => None,
        }
    }
}

/// Whether the automaton accepts `input`: the run consumes every character
/// and ends in an accepting state.
pub open spec fn dfa_accepts(m: Map<(u32, Option<char>), u32>, acc: Set<u32>, input: Seq<char>) -> bool {
    match dfa_run_state(m, input) {
        Some(s) => acc.contains(s),
        None => false,
    }
}

proof fn lemma_dfa_stuck_stays_stuck(m: Map<(u32, Option<char>), u32>, input: Seq<char>, i: int)
    requires
        0 <= i <= input.len(),
        dfa_run_state(m, input.take(i)) is None,
    ensures
        dfa_run_state(m, input) is None,
    decreases input.len() - i,
{
    if i == input.len() {
        assert(input.take(i) =~= input);
    } else {
        assert(input.take(i + 1).drop_last() =~= input.take(i));
        lemma_dfa_stuck_stays_stuck(m, input, i + 1);
    }
}

/// A deterministic finite automaton.
///
/// The start state is always `0`; the automaton accepts an input when the
/// run consumes every character and ends in a state of
/// `accepting_states`.
pub struct DFA {
    /// The transition function: at most one destination per
    /// `(state, symbol)` key.  A `None` key is a catch-all consulted only
    /// when no `Some(c)` key matches the current character.
    transitions: DFATransition,
    /// The set of states in which the automaton accepts.
    accepting_states: HashSet<u32>,
}

impl DFA {
    /// The transition function as a map.
    pub closed spec fn trans(&self) -> Map<(u32, Option<char>), u32> {
        self.transitions@
    }

    /// The accepting-state set.
    pub closed spec fn acc(&self) -> Set<u32> {
        self.accepting_states@
    }

    /// Well-formedness, inherited from the transition function.
    pub closed spec fn wf(&self) -> bool {
        self.transitions.wf()
    }

    /// Create a new automaton from a transition function and a set of
    /// accepting states.
    pub fn new(transitions: DFATransition, accepting_states: HashSet<u32>) -> (r: DFA)
        ensures
            r.trans() == transitions@,
            r.acc() == accepting_states@,
            r.wf() == transitions.wf(),
    {
        DFA { transitions, accepting_states }
    }

    /// Run the automaton on `input`: follow one transition per character,
    /// preferring the exact `Some(c)` edge over the catch-all, and reject
    /// as soon as neither exists.
    pub fn run(&self, input: String) -> (r: bool)
        requires
            self.wf(),
        ensures
            r == dfa_accepts(self.trans(), self.acc(), input@),
    {
        let ghost m = self.trans();
        let input_str = input.as_str();
        let mut current_state: u32 = 0;
        let n = input_str.unicode_len();
        let mut i: usize = 0;
        proof {
            assert(input@.take(0) =~= Seq::<char>::empty());
        }
        while i < n
            invariant
                self.wf(),
                m == self.trans(),
                input_str@ == input@,
                n == input@.len(),
                i <= n,
                dfa_run_state(m, input@.take(i as int)) == Some(current_state),
            decreases n - i,
        {
            let c = input_str.get_char(i);
            proof {
                assert(input@.take(i + 1).drop_last() =~= input@.take(i as int));
                assert(input@.take(i + 1).last() == input@[i as int]);
            }
            match self.transitions.get((current_state, Some(c))) {
                Some(new_state) => {
                    current_state = new_state;
                },
                None => {
                    match self.transitions.get((current_state, None)) {
                        Some(new_state) => {
                            current_state = new_state;
                        },
                        None => {
                            proof {
                                lemma_dfa_stuck_stays_stuck(m, input@, i + 1);
                            }
                            return false;
                        },
                    }
                },
            }
            i += 1;
        }
        proof {
            assert(input@.take(n as int) =~= input@);
        }
        self.accepting_states.contains(&current_state)
    }
}

} // verus!
