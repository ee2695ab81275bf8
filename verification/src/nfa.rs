//! A nondeterministic finite automaton with epsilon transitions.
//!
//! States are `u32` identifiers; state `0` is always the start state.
//! The transition relation maps a `(state, symbol)` pair to at most one
//! destination state; nondeterminism arises only because several states
//! can be active at once during a run.

use std::collections::HashSet;
use vstd::prelude::*;

verus! {

/// The symbol class attached to an automaton edge.
///
/// `Epsilon` edges are taken without consuming input, `If(c)` edges are
/// taken exactly when the current character equals `c`, and `Else` edges
/// are taken when no `If` edge matches (lowest priority).
#[derive(Clone, Copy, PartialEq, Eq, Hash, Structural)]
pub enum NFAChar {
    Epsilon,
    If(char),
    Else,
}

/// True when no two entries of `s` share a key, so that `s` denotes a
/// function from keys to destination states.
pub open spec fn distinct_keys(s: Seq<((u32, NFAChar), u32)>) -> bool {
    forall|i: int, j: int| 0 <= i < j < s.len() ==> s[i].0 != s[j].0
}

/// The partial map denoted by a sequence of table entries.
pub open spec fn table_map(s: Seq<((u32, NFAChar), u32)>) -> Map<(u32, NFAChar), u32> {
    Map::new(
        |k: (u32, NFAChar)| exists|i: int| 0 <= i < s.len() && s[i].0 == k,
        |k: (u32, NFAChar)| s[choose|i: int| 0 <= i < s.len() && s[i].0 == k].1,
    )
}

proof fn lemma_table_map_index(s: Seq<((u32, NFAChar), u32)>, i: int)
    requires
        distinct_keys(s),
        0 <= i < s.len(),
    ensures
        table_map(s).contains_key(s[i].0),
        table_map(s)[s[i].0] == s[i].1,
{
    let k = s[i].0;
    assert(exists|j: int| 0 <= j < s.len() && s[j].0 == k);
    let j = choose|j: int| 0 <= j < s.len() && s[j].0 == k;
    assert(j == i);
}

proof fn lemma_table_map_absent(s: Seq<((u32, NFAChar), u32)>, k: (u32, NFAChar))
    requires
        forall|i: int| 0 <= i < s.len() ==> s[i].0 != k,
    ensures
        !table_map(s).contains_key(k),
{
}

/// The transition relation of an automaton: a finite partial map from
/// `(state, symbol)` keys to destination states, stored as a vector of
/// entries with pairwise-distinct keys.
pub struct Transition {
    entries: Vec<((u32, NFAChar), u32)>,
}

impl View for Transition {
    type V = Map<(u32, NFAChar), u32>;

    closed spec fn view(&self) -> Map<(u32, NFAChar), u32> {
        table_map(self.entries@)
    }
}

impl Transition {
    /// Well-formedness: the stored entries denote a function.
    pub closed spec fn wf(&self) -> bool {
        distinct_keys(self.entries@)
    }

    /// An empty transition relation.
    pub fn new() -> (r: Transition)
        ensures
            r.wf(),
            r@ == Map::<(u32, NFAChar), u32>::empty(),
    {
        let r = Transition { entries: Vec::new() };
        proof {
            assert(r@ =~= Map::<(u32, NFAChar), u32>::empty());
        }
        r
    }

    /// The index of the entry holding `key`, if any.
    fn find(&self, key: (u32, NFAChar)) -> (r: Option<usize>)
        ensures
            match r {
                Some(i) => i < self.entries@.len() && self.entries@[i as int].0 == key,
                None => forall|i: int| 0 <= i < self.entries@.len() ==> self.entries@[i].0 != key,
            },
    {
        let mut i: usize = 0;
        while i < self.entries.len()
            invariant
                i <= self.entries@.len(),
                forall|j: int| 0 <= j < i ==> self.entries@[j].0 != key,
            decreases self.entries@.len() - i,
        {
            let k = self.entries[i].0;
            if k.0 == key.0 && k.1 == key.1 {
                return Some(i);
            }
            i += 1;
        }
        None
    }

    /// Map `key` to `value`, replacing any earlier destination for `key`.
    pub fn insert(&mut self, key: (u32, NFAChar), value: u32)
        requires
            old(self).wf(),
        ensures
            final(self).wf(),
            final(self)@ == old(self)@.insert(key, value),
    {
        match self.find(key) {
            Some(i) => {
                let ghost s0 = self.entries@;
                self.entries.remove(i);
                self.entries.push((key, value));
                proof {
                    lemma_remove_key(s0, i as int);
                    lemma_push_fresh_key(self.entries@.drop_last(), key, value);
                    assert(self.entries@.drop_last() =~= s0.remove(i as int));
                    assert(table_map(self.entries@) =~= table_map(s0).insert(key, value));
                }
            },
            None => {
                let ghost s0 = self.entries@;
                self.entries.push((key, value));
                proof {
                    lemma_push_fresh_key(s0, key, value);
                    assert(self.entries@.drop_last() =~= s0);
                }
            },
        }
    }

    /// Drop the entry for `key`, if there is one.
    pub fn remove(&mut self, key: &(u32, NFAChar))
        requires
            old(self).wf(),
        ensures
            final(self).wf(),
            final(self)@ == old(self)@.remove(*key),
    {
        match self.find(*key) {
            Some(i) => {
                let ghost s0 = self.entries@;
                self.entries.remove(i);
                proof {
                    lemma_remove_key(s0, i as int);
                }
            },
            None => {
                proof {
                    lemma_table_map_absent(self.entries@, *key);
                    assert(self@ =~= self@.remove(*key));
                }
            },
        }
    }

    /// The set of destination states stored in the relation.
    pub closed spec fn spec_values(&self) -> Set<u32> {
        self.entries@.map_values(|e: ((u32, NFAChar), u32)| e.1).to_set()
    }

    /// How many edges the relation holds.
    pub closed spec fn spec_size(&self) -> nat {
        self.entries@.len()
    }

    /// The stored values are a finite set, no larger than the entry count,
    /// and every destination of the denoted map is among them.
    pub proof fn lemma_values(&self)
        requires
            self.wf(),
        ensures
            self.spec_values().finite(),
            self.spec_values().len() <= self.spec_size(),
            forall|k: (u32, NFAChar)| #[trigger] self@.contains_key(k)
                ==> self.spec_values().contains(self@[k]),
    {
        let vs = self.entries@.map_values(|e: ((u32, NFAChar), u32)| e.1);
        broadcast use vstd::seq_lib::seq_to_set_is_finite;

        vs.lemma_cardinality_of_set();
        assert forall|k: (u32, NFAChar)| #[trigger] self@.contains_key(k) implies
            self.spec_values().contains(self@[k]) by {
            let j = choose|i: int| 0 <= i < self.entries@.len() && self.entries@[i].0 == k;
            lemma_table_map_index(self.entries@, j);
            assert(vs[j] == self.entries@[j].1);
            assert(vs.contains(vs[j]));
        }
    }

    /// The destination state for `key`, if the relation has an edge for it.
    pub fn get(&self, key: (u32, NFAChar)) -> (r: Option<u32>)
        requires
            self.wf(),
        ensures
            r == if self@.contains_key(key) {
                Some(self@[key])
            } else {
                None::<u32>
            },
    {
        match self.find(key) {
            Some(i) => {
                proof {
                    lemma_table_map_index(self.entries@, i as int);
                }
                Some(self.entries[i].1)
            },
            None => {
                proof {
                    lemma_table_map_absent(self.entries@, key);
                }
                None
            },
        }
    }
}

/// Removing the entry at `i` removes exactly its key from the denoted map.
proof fn lemma_remove_key(s: Seq<((u32, NFAChar), u32)>, i: int)
    requires
        distinct_keys(s),
        0 <= i < s.len(),
    ensures
        distinct_keys(s.remove(i)),
        table_map(s.remove(i)) == table_map(s).remove(s[i].0),
{
    let t = s.remove(i);
    let k = s[i].0;
    assert forall|a: int, b: int| 0 <= a < b < t.len() implies t[a].0 != t[b].0 by {
        assert(t[a] == if a < i {
            s[a]
        } else {
            s[a + 1]
        });
        assert(t[b] == if b < i {
            s[b]
        } else {
            s[b + 1]
        });
    }
    assert forall|q: (u32, NFAChar)| true implies (table_map(t).contains_key(q) <==> table_map(
        s,
    ).remove(k).contains_key(q)) by {
        if q == k {
            assert forall|a: int| 0 <= a < t.len() implies t[a].0 != k by {
                assert(t[a] == if a < i {
                    s[a]
                } else {
                    s[a + 1]
                });
            }
            lemma_table_map_absent(t, k);
        } else {
            if table_map(s).contains_key(q) {
                let a = choose|a: int| 0 <= a < s.len() && s[a].0 == q;
                if a < i {
                    assert(t[a] == s[a]);
                } else {
                    assert(t[a - 1] == s[a]);
                }
                assert(exists|b: int| 0 <= b < t.len() && t[b].0 == q);
            }
            if table_map(t).contains_key(q) {
                let b = choose|b: int| 0 <= b < t.len() && t[b].0 == q;
                assert(t[b] == if b < i {
                    s[b]
                } else {
                    s[b + 1]
                });
                assert(exists|a: int| 0 <= a < s.len() && s[a].0 == q);
            }
        }
    }
    assert forall|q: (u32, NFAChar)| table_map(t).contains_key(q) implies table_map(t)[q]
        == table_map(s).remove(k)[q] by {
        let b = choose|b: int| 0 <= b < t.len() && t[b].0 == q;
        let c = b + if b < i {
            0int
        } else {
            1int
        };
        assert(t[b] == s[c]);
        lemma_table_map_index(t, b);
        lemma_table_map_index(s, c);
    }
    assert(table_map(s.remove(i)) =~= table_map(s).remove(s[i].0));
}

/// Appending an entry whose key is absent adds exactly that binding.
proof fn lemma_push_fresh_key(s: Seq<((u32, NFAChar), u32)>, key: (u32, NFAChar), value: u32)
    requires
        distinct_keys(s),
        forall|i: int| 0 <= i < s.len() ==> s[i].0 != key,
    ensures
        distinct_keys(s.push((key, value))),
        table_map(s.push((key, value))) == table_map(s).insert(key, value),
{
    let t = s.push((key, value));
    assert forall|a: int, b: int| 0 <= a < b < t.len() implies t[a].0 != t[b].0 by {
        if b == s.len() {
            assert(t[a] == s[a]);
        } else {
            assert(t[a] == s[a]);
            assert(t[b] == s[b]);
        }
    }
    assert forall|q: (u32, NFAChar)| table_map(t).contains_key(q) implies table_map(t)[q]
        == table_map(s).insert(key, value)[q] by {
        let b = choose|b: int| 0 <= b < t.len() && t[b].0 == q;
        lemma_table_map_index(t, b);
        if b < s.len() {
            assert(t[b] == s[b]);
            lemma_table_map_index(s, b);
        }
    }
    assert forall|q: (u32, NFAChar)| table_map(s).insert(key, value).contains_key(q) implies
        table_map(t).contains_key(q) by {
        if q == key {
            assert(t[s.len() as int].0 == q);
        } else {
            let a = choose|a: int| 0 <= a < s.len() && s[a].0 == q;
            assert(t[a].0 == q);
        }
    }
    assert(table_map(t) =~= table_map(s).insert(key, value));
}

/// The epsilon successor of a state, if the relation has an epsilon edge
/// out of it.  A state has at most one epsilon successor because the
/// relation maps each `(state, symbol)` key to at most one destination.
pub open spec fn eps_step(m: Map<(u32, NFAChar), u32>, s: u32) -> Option<u32> {
    if m.contains_key((s, NFAChar::Epsilon)) {
        Some(m[(s, NFAChar::Epsilon)])
    } else {
        None
    }
}

/// The state reached from `s` after exactly `n` epsilon steps, if every
/// intermediate state has an epsilon successor.
pub open spec fn eps_iter(m: Map<(u32, NFAChar), u32>, s: u32, n: nat) -> Option<u32>
    decreases n,
{
    if n == 0 {
        Some(s)
    } else {
        match eps_iter(m, s, (n - 1) as nat) {
            Some(t) => eps_step(m, t),
            None => None,
        }
    }
}

/// `t` is reachable from `s` by zero or more epsilon steps.
pub open spec fn eps_reaches(m: Map<(u32, NFAChar), u32>, s: u32, t: u32) -> bool {
    exists|n: nat| eps_iter(m, s, n) == Some(t)
}

/// A state set closed under epsilon steps.
pub open spec fn eps_closed(m: Map<(u32, NFAChar), u32>, states: Set<u32>) -> bool {
    forall|s: u32| #[trigger] states.contains(s) ==> match eps_step(m, s) {
        Some(t) => states.contains(t),
        None => true,
    }
}

/// The epsilon closure of a source set: every state reachable from a
/// member of `src` by zero or more epsilon steps.
pub open spec fn eps_closure_from(m: Map<(u32, NFAChar), u32>, src: Set<u32>) -> Set<u32> {
    Set::new(|t: u32| exists|s: u32| #[trigger] src.contains(s) && eps_reaches(m, s, t))
}

/// Where one active state goes on input character `c`: the `If(c)` edge
/// if there is one, otherwise the `Else` edge, otherwise nowhere.
pub open spec fn char_step(m: Map<(u32, NFAChar), u32>, s: u32, c: char) -> Option<u32> {
    if m.contains_key((s, NFAChar::If(c))) {
        Some(m[(s, NFAChar::If(c))])
    } else if m.contains_key((s, NFAChar::Else)) {
        Some(m[(s, NFAChar::Else)])
    } else {
        None
    }
}

/// The next active-state set after consuming `c`: every destination of a
/// character step out of `src`, together with its epsilon closure.
pub open spec fn step_states(m: Map<(u32, NFAChar), u32>, src: Set<u32>, c: char) -> Set<u32> {
    eps_closure_from(
        m,
        Set::new(|t: u32| exists|s: u32| #[trigger] src.contains(s) && char_step(m, s, c) == Some(t)),
    )
}

/// The active-state set after consuming all of `input`, starting from `src`.
pub open spec fn run_states(m: Map<(u32, NFAChar), u32>, src: Set<u32>, input: Seq<char>) -> Set<
    u32,
>
    decreases input.len(),
{
    if input.len() == 0 {
        src
    } else {
        step_states(m, run_states(m, src, input.drop_last()), input.last())
    }
}

/// The initial active-state set: the epsilon closure of the start state `0`.
pub open spec fn start_states(m: Map<(u32, NFAChar), u32>) -> Set<u32> {
    eps_closure_from(m, Set::new(|s: u32| s == 0))
}

/// Whether the automaton accepts `input`: after consuming every character,
/// some active state is an accepting state.
pub open spec fn nfa_accepts(
    m: Map<(u32, NFAChar), u32>,
    acc: Set<u32>,
    input: Seq<char>,
) -> bool {
    exists|s: u32|
        #[trigger] run_states(m, start_states(m), input).contains(s) && acc.contains(s)
}

pub proof fn lemma_eps_reaches_self(m: Map<(u32, NFAChar), u32>, s: u32)
    ensures
        eps_reaches(m, s, s),
{
    assert(eps_iter(m, s, 0) == Some(s));
}

proof fn lemma_eps_reaches_step(m: Map<(u32, NFAChar), u32>, s: u32, t: u32, u: u32)
    requires
        eps_reaches(m, s, t),
        eps_step(m, t) == Some(u),
    ensures
        eps_reaches(m, s, u),
{
    let n = choose|n: nat| eps_iter(m, s, n) == Some(t);
    assert(eps_iter(m, s, n + 1) == Some(u));
}

proof fn lemma_closed_reach(m: Map<(u32, NFAChar), u32>, states: Set<u32>, s: u32, n: nat, t: u32)
    requires
        eps_closed(m, states),
        states.contains(s),
        eps_iter(m, s, n) == Some(t),
    ensures
        states.contains(t),
    decreases n,
{
    if n != 0 {
        match eps_iter(m, s, (n - 1) as nat) {
            Some(u) => {
                lemma_closed_reach(m, states, s, (n - 1) as nat, u);
            },
            None => {
                assert(false);
            },
        }
    }
}

/// An epsilon-closed superset of `src` contains the whole closure of `src`.
pub proof fn lemma_closed_superset_closure(
    m: Map<(u32, NFAChar), u32>,
    src: Set<u32>,
    states: Set<u32>,
)
    requires
        eps_closed(m, states),
        src.subset_of(states),
    ensures
        eps_closure_from(m, src).subset_of(states),
{
    assert forall|t: u32| eps_closure_from(m, src).contains(t) implies states.contains(t) by {
        let s = choose|s: u32| #[trigger] src.contains(s) && eps_reaches(m, s, t);
        let n = choose|n: nat| eps_iter(m, s, n) == Some(t);
        lemma_closed_reach(m, states, s, n, t);
    }
}

proof fn lemma_step_states_no_source(m: Map<(u32, NFAChar), u32>, src: Set<u32>, c: char)
    requires
        src == Set::<u32>::empty(),
    ensures
        step_states(m, src, c) == Set::<u32>::empty(),
{
    let succ = Set::new(
        |t: u32| exists|s: u32| #[trigger] src.contains(s) && char_step(m, s, c) == Some(t),
    );
    assert forall|t: u32| !step_states(m, src, c).contains(t) by {
        if step_states(m, src, c).contains(t) {
            let s = choose|s: u32| #[trigger] succ.contains(s) && eps_reaches(m, s, t);
            let s2 = choose|s2: u32| #[trigger] src.contains(s2) && char_step(m, s2, c) == Some(s);
            assert(false);
        }
    }
    assert(step_states(m, src, c) =~= Set::<u32>::empty());
}

/// Once the active-state set is empty, it stays empty for the rest of the
/// input, so the run rejects.
proof fn lemma_run_states_prefix_empty(
    m: Map<(u32, NFAChar), u32>,
    src: Set<u32>,
    input: Seq<char>,
    i: int,
)
    requires
        0 <= i <= input.len(),
        run_states(m, src, input.take(i)) == Set::<u32>::empty(),
    ensures
        run_states(m, src, input) == Set::<u32>::empty(),
    decreases input.len() - i,
{
    if i == input.len() {
        assert(input.take(i) =~= input);
    } else {
        assert(input.take(i + 1).drop_last() =~= input.take(i));
        assert(input.take(i + 1).last() == input[i]);
        lemma_step_states_no_source(m, run_states(m, src, input.take(i)), input[i]);
        lemma_run_states_prefix_empty(m, src, input, i + 1);
    }
}

/// Linear membership test on a vector of states.
fn vec_contains_state(v: &Vec<u32>, x: u32) -> (r: bool)
    ensures
        r == v@.contains(x),
{
    let mut i: usize = 0;
    while i < v.len()
        invariant
            i <= v@.len(),
            forall|j: int| 0 <= j < i ==> v@[j] != x,
        decreases v@.len() - i,
    {
        if v[i] == x {
            proof {
                assert(v@[i as int] == x);
            }
            return true;
        }
        i += 1;
    }
    false
}

/// A nondeterministic finite automaton with epsilon transitions.
///
/// The start state is always `0`; the automaton accepts an input when,
/// after consuming all of it, some active state lies in
/// `accepting_states`.
pub struct NFA {
    /// The transition relation: at most one destination per
    /// `(state, symbol)` key.  `Else` edges are taken only when no `If`
    /// edge matches the current character.
    transitions: Transition,
    /// The set of states in which the automaton accepts.
    accepting_states: HashSet<u32>,
}

impl NFA {
    /// The transition relation as a map.
    pub closed spec fn trans(&self) -> Map<(u32, NFAChar), u32> {
        self.transitions@
    }

    /// The accepting-state set.
    pub closed spec fn acc(&self) -> Set<u32> {
        self.accepting_states@
    }

    /// Well-formedness, inherited from the transition relation.
    pub closed spec fn wf(&self) -> bool {
        self.transitions.wf()
    }

    /// Create a new automaton from a transition relation and a set of
    /// accepting states.
    pub fn new(transitions: Transition, accepting_states: HashSet<u32>) -> (r: NFA)
        ensures
            r.trans() == transitions@,
            r.acc() == accepting_states@,
            r.wf() == transitions.wf(),
    {
        NFA { transitions, accepting_states }
    }

    /// Add to `current_states` every state reachable from `curr` through
    /// epsilon transitions, `curr` itself included.  The membership check
    /// before each step makes the walk terminate even if the relation were
    /// to hold an epsilon cycle.
    fn follow_epilon_transition(&self, current_states: &mut Vec<u32>, curr: u32)
        requires
            self.wf(),
            old(current_states)@.no_duplicates(),
            eps_closed(self.trans(), old(current_states)@.to_set()),
        ensures
            final(current_states)@.no_duplicates(),
            eps_closed(self.trans(), final(current_states)@.to_set()),
            final(current_states)@.to_set() == old(current_states)@.to_set() + eps_closure_from(
                self.trans(),
                Set::new(|s: u32| s == curr),
            ),
    {
        let ghost m = self.trans();
        let ghost bound = self.transitions.spec_values().insert(curr);
        proof {
            self.transitions.lemma_values();
            lemma_eps_reaches_self(m, curr);
            assert forall|s: u32| #[trigger] current_states@.contains(s) implies match eps_step(
                m,
                s,
            ) {
                Some(t) => current_states@.contains(t) || t == curr,
                None => true,
            } by {
                assert(current_states@.to_set().contains(s));
                match eps_step(m, s) {
                    Some(t) => {
                        assert(current_states@.to_set().contains(t));
                    },
                    None => {},
                }
            }
        }
        let mut cur = curr;
        loop
            invariant
                self.wf(),
                m == self.trans(),
                bound == self.transitions.spec_values().insert(curr),
                bound.finite(),
                bound.contains(cur),
                current_states@.no_duplicates(),
                eps_reaches(m, curr, cur),
                current_states@.contains(curr) || cur == curr,
                forall|s: u32| old(current_states)@.contains(s) ==> current_states@.contains(s),
                forall|s: u32| #[trigger] current_states@.contains(s) ==> old(
                    current_states,
                )@.contains(s) || eps_reaches(m, curr, s),
                forall|s: u32| #[trigger] current_states@.contains(s) ==> match eps_step(m, s) {
                    Some(t) => current_states@.contains(t) || t == cur,
                    None => true,
                },
            ensures
                current_states@.no_duplicates(),
                current_states@.contains(curr),
                forall|s: u32| old(current_states)@.contains(s) ==> current_states@.contains(s),
                forall|s: u32| #[trigger] current_states@.contains(s) ==> old(
                    current_states,
                )@.contains(s) || eps_reaches(m, curr, s),
                forall|s: u32| #[trigger] current_states@.contains(s) ==> match eps_step(m, s) {
                    Some(t) => current_states@.contains(t),
                    None => true,
                },
            decreases bound.difference(current_states@.to_set()).len(),
        {
            if vec_contains_state(current_states, cur) {
                break;
            }
            let ghost prev = current_states@;
            current_states.push(cur);
            proof {
                assert forall|s: u32| #[trigger] current_states@.contains(s) implies prev.contains(
                    s,
                ) || s == cur by {
                    let i = choose|i: int|
                        0 <= i < current_states@.len() && current_states@[i] == s;
                    if i < prev.len() {
                        assert(prev[i] == s);
                    }
                }
                assert forall|s: u32| prev.contains(s) implies current_states@.contains(s) by {
                    let i = choose|i: int| 0 <= i < prev.len() && prev[i] == s;
                    assert(current_states@[i] == s);
                }
                assert(current_states@[prev.len() as int] == cur);
                assert(current_states@.contains(cur));
                assert forall|i: int, j: int|
                    0 <= i < j < current_states@.len() implies current_states@[i]
                    != current_states@[j] by {
                    if j == prev.len() {
                        assert(prev[i] == current_states@[i]);
                        assert(!prev.contains(cur));
                    }
                }
                assert(current_states@.to_set() =~= prev.to_set().insert(cur));
                assert(bound.difference(current_states@.to_set()) =~= bound.difference(
                    prev.to_set(),
                ).remove(cur));
            }
            match self.transitions.get((cur, NFAChar::Epsilon)) {
                Some(t) => {
                    proof {
                        self.transitions.lemma_values();
                        assert(eps_step(m, cur) == Some(t));
                        lemma_eps_reaches_step(m, curr, cur, t);
                    }
                    cur = t;
                },
                None => {
                    break;
                },
            }
        }
        proof {
            let reach = eps_closure_from(m, Set::new(|s: u32| s == curr));
            assert forall|s: u32| current_states@.to_set().contains(s) implies old(
                current_states,
            )@.to_set().contains(s) || reach.contains(s) by {
                if !old(current_states)@.contains(s) {
                    assert(Set::new(|q: u32| q == curr).contains(curr));
                }
            }
            let src = Set::new(|q2: u32| q2 == curr);
            assert forall|s: u32| reach.contains(s) implies current_states@.to_set().contains(
                s,
            ) by {
                let q = choose|q: u32| #[trigger] src.contains(q) && eps_reaches(m, q, s);
                let n = choose|n: nat| eps_iter(m, q, n) == Some(s);
                lemma_closed_reach(m, current_states@.to_set(), curr, n, s);
            }
            assert(current_states@.to_set() =~= old(current_states)@.to_set() + reach);
        }
    }

    /// Run the automaton on `input`.
    ///
    /// Simulates all active states at once: for each input character, each
    /// active state follows its `If` edge when one matches, else its `Else`
    /// edge, and every destination is added together with its epsilon
    /// closure.  Accepts when the final active set meets the accepting set.
    pub fn run(&self, input: String) -> (r: bool)
        requires
            self.wf(),
        ensures
            r == nfa_accepts(self.trans(), self.acc(), input@),
    {
        let ghost m = self.trans();
        let input_str = input.as_str();
        let mut current_states: Vec<u32> = Vec::new();
        proof {
            assert(current_states@.to_set() =~= Set::<u32>::empty());
        }
        self.follow_epilon_transition(&mut current_states, 0);
        proof {
            assert(Set::new(|s: u32| s == 0u32) =~= Set::new(|s: u32| s == 0));
            assert(current_states@.to_set() =~= start_states(m));
            assert(input@.take(0) =~= Seq::<char>::empty());
        }
        let n = input_str.unicode_len();
        let mut i: usize = 0;
        while i < n
            invariant
                self.wf(),
                m == self.trans(),
                input_str@ == input@,
                n == input@.len(),
                i <= n,
                current_states@.no_duplicates(),
                eps_closed(m, current_states@.to_set()),
                current_states@.to_set() == run_states(m, start_states(m), input@.take(i as int)),
            decreases n - i,
        {
            let c = input_str.get_char(i);
            let ghost cur_set = current_states@.to_set();
            let mut next: Vec<u32> = Vec::new();
            proof {
                assert(next@.to_set() =~= Set::<u32>::empty());
                lemma_closure_of_empty(m);
                assert(Set::new(
                    |t: u32|
                        exists|k: int|
                            0 <= k < 0 && char_step(m, current_states@[k], c) == Some(t),
                ) =~= Set::<u32>::empty());
            }
            let mut j: usize = 0;
            while j < current_states.len()
                invariant
                    self.wf(),
                    m == self.trans(),
                    j <= current_states@.len(),
                    next@.no_duplicates(),
                    eps_closed(m, next@.to_set()),
                    next@.to_set() == eps_closure_from(
                        m,
                        Set::new(
                            |t: u32|
                                exists|k: int|
                                    0 <= k < j && char_step(m, current_states@[k], c) == Some(t),
                        ),
                    ),
                decreases current_states@.len() - j,
            {
                let ghost pref = Set::new(
                    |t: u32|
                        exists|k: int|
                            0 <= k < j && char_step(m, current_states@[k], c) == Some(t),
                );
                let ghost pref1 = Set::new(
                    |t: u32|
                        exists|k: int|
                            0 <= k < j + 1 && char_step(m, current_states@[k], c) == Some(t),
                );
                let s = current_states[j];
                let mut stepped: Option<u32> = None;
                match self.transitions.get((s, NFAChar::If(c))) {
                    Some(t) => {
                        stepped = Some(t);
                    },
                    None => {
                        match self.transitions.get((s, NFAChar::Else)) {
                            Some(t) => {
                                stepped = Some(t);
                            },
                            None => {},
                        }
                    },
                }
                proof {
                    assert(stepped == char_step(m, s, c));
                }
                match stepped {
                    Some(t) => {
                        self.follow_epilon_transition(&mut next, t);
                        proof {
                            assert forall|u: u32| pref1.contains(u) implies pref.insert(
                                t,
                            ).contains(u) by {
                                let k = choose|k: int|
                                    0 <= k < j + 1 && char_step(m, current_states@[k], c) == Some(
                                        u,
                                    );
                                if k < j {
                                    assert(pref.contains(u));
                                }
                            }
                            assert forall|u: u32| pref.insert(t).contains(u) implies
                                pref1.contains(u) by {
                                if pref.contains(u) {
                                    let k = choose|k: int|
                                        0 <= k < j && char_step(m, current_states@[k], c) == Some(
                                            u,
                                        );
                                    assert(0 <= k < j + 1 && char_step(m, current_states@[k], c)
                                        == Some(u));
                                } else {
                                    assert(char_step(m, current_states@[j as int], c) == Some(u));
                                }
                            }
                            assert(pref1 =~= pref.insert(t));
                            lemma_closure_insert(m, pref, t);
                        }
                    },
                    None => {
                        proof {
                            assert forall|u: u32| pref1.contains(u) implies pref.contains(u) by {
                                let k = choose|k: int|
                                    0 <= k < j + 1 && char_step(m, current_states@[k], c) == Some(
                                        u,
                                    );
                                assert(k < j);
                            }
                            assert(pref1 =~= pref);
                        }
                    },
                }
                j += 1;
            }
            proof {
                let pref_all = Set::new(
                    |t: u32|
                        exists|k: int|
                            0 <= k < current_states@.len() && char_step(m, current_states@[k], c)
                                == Some(t),
                );
                let succ = Set::new(
                    |t: u32|
                        exists|s: u32| #[trigger] cur_set.contains(s) && char_step(m, s, c) == Some(
                            t,
                        ),
                );
                assert forall|u: u32| pref_all.contains(u) implies succ.contains(u) by {
                    let k = choose|k: int|
                        0 <= k < current_states@.len() && char_step(m, current_states@[k], c)
                            == Some(u);
                    assert(current_states@.contains(current_states@[k]));
                    assert(cur_set.contains(current_states@[k]));
                }
                assert forall|u: u32| succ.contains(u) implies pref_all.contains(u) by {
                    let s = choose|s: u32|
                        #[trigger] cur_set.contains(s) && char_step(m, s, c) == Some(u);
                    let k = choose|k: int|
                        0 <= k < current_states@.len() && current_states@[k] == s;
                    assert(char_step(m, current_states@[k], c) == Some(u));
                }
                assert(pref_all =~= succ);
                assert(next@.to_set() == step_states(m, cur_set, c));
                assert(input@.take(i + 1).drop_last() =~= input@.take(i as int));
                assert(input@.take(i + 1).last() == input@[i as int]);
                assert(next@.to_set() == run_states(m, start_states(m), input@.take(i + 1)));
            }
            if next.len() == 0 {
                proof {
                    assert(next@.to_set() =~= Set::<u32>::empty());
                    lemma_run_states_prefix_empty(m, start_states(m), input@, i + 1);
                    assert(!nfa_accepts(m, self.acc(), input@));
                }
                return false;
            }
            current_states = next;
            i += 1;
        }
        proof {
            assert(input@.take(n as int) =~= input@);
        }
        let mut k: usize = 0;
        while k < current_states.len()
            invariant
                self.wf(),
                m == self.trans(),
                k <= current_states@.len(),
                current_states@.to_set() == run_states(m, start_states(m), input@),
                forall|j2: int| 0 <= j2 < k ==> !self.acc().contains(current_states@[j2]),
            decreases current_states@.len() - k,
        {
            let st = current_states[k];
            if self.accepting_states.contains(&st) {
                proof {
                    assert(current_states@.contains(st));
                    assert(current_states@.to_set().contains(st));
                }
                return true;
            }
            k += 1;
        }
        proof {
            if nfa_accepts(m, self.acc(), input@) {
                let s = choose|s: u32|
                    #[trigger] run_states(m, start_states(m), input@).contains(s)
                        && self.acc().contains(s);
                assert(current_states@.to_set().contains(s));
                assert(current_states@.contains(s));
                let k2 = choose|k2: int|
                    0 <= k2 < current_states@.len() && current_states@[k2] == s;
                assert(false);
            }
        }
        false
    }
}

/// The closure of an already epsilon-closed set adds nothing.
pub proof fn lemma_closure_of_closed(m: Map<(u32, NFAChar), u32>, src: Set<u32>)
    requires
        eps_closed(m, src),
    ensures
        eps_closure_from(m, src) == src,
{
    lemma_closed_superset_closure(m, src, src);
    assert forall|s: u32| src.contains(s) implies eps_closure_from(m, src).contains(s) by {
        lemma_eps_reaches_self(m, s);
    }
    assert(eps_closure_from(m, src) =~= src);
}

proof fn lemma_closure_of_empty(m: Map<(u32, NFAChar), u32>)
    ensures
        eps_closure_from(m, Set::<u32>::empty()) == Set::<u32>::empty(),
{
    let e = Set::<u32>::empty();
    assert forall|t: u32| !eps_closure_from(m, e).contains(t) by {
        if eps_closure_from(m, e).contains(t) {
            let s = choose|s: u32| #[trigger] e.contains(s) && eps_reaches(m, s, t);
            assert(false);
        }
    }
    assert(eps_closure_from(m, e) =~= e);
}

/// The epsilon closure distributes over adding one source state.
proof fn lemma_closure_insert(m: Map<(u32, NFAChar), u32>, a: Set<u32>, t: u32)
    ensures
        eps_closure_from(m, a.insert(t)) == eps_closure_from(m, a) + eps_closure_from(
            m,
            Set::new(|q: u32| q == t),
        ),
{
    let single = Set::new(|q: u32| q == t);
    let lhs = eps_closure_from(m, a.insert(t));
    let rhs = eps_closure_from(m, a) + eps_closure_from(m, single);
    assert forall|u: u32| lhs.contains(u) implies rhs.contains(u) by {
        let s = choose|s: u32| #[trigger] a.insert(t).contains(s) && eps_reaches(m, s, u);
        if s == t {
            assert(single.contains(t));
            assert(eps_closure_from(m, single).contains(u));
        } else {
            assert(a.contains(s));
            assert(eps_closure_from(m, a).contains(u));
        }
    }
    assert forall|u: u32| rhs.contains(u) implies lhs.contains(u) by {
        if eps_closure_from(m, a).contains(u) {
            let s = choose|s: u32| #[trigger] a.contains(s) && eps_reaches(m, s, u);
            assert(a.insert(t).contains(s));
        } else {
            let s = choose|s: u32| #[trigger] single.contains(s) && eps_reaches(m, s, u);
            assert(a.insert(t).contains(t));
        }
    }
    assert(lhs =~= rhs);
}

} // verus!
