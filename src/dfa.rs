//! Deterministic automata: the membership test, and subset construction
//! from an automaton without silent edges.
use crate::bounds::{lemma_pow2_positive, pow2};
use crate::subset::{
    composite_accepts, edge_sound, expand, initial, key_set, keys_ok, label_char, lemma_key_unique,
    lemma_keys_extend, meets_accept, row_complete, bits_of, collect_symbols,
};
use crate::nfa::{lemma_closure_epsilon_free, lemma_step_empty, lemma_step_outside_alphabet, StateID, TransitionLabel, NFA};
use std::collections::{HashMap, HashSet};
use vstd::prelude::*;

verus! {

broadcast use vstd::std_specs::hash::group_hash_axioms;

/// A deterministic automaton. A state without an entry in `transitions`, or
/// without a pair for a character, has no move on it: the input is rejected.
/// A row lists at most one target per character (see `deterministic`); a
/// lookup takes the first pair for the character.
pub struct DFA {
    pub start: usize,
    pub accepts: HashSet<usize>,
    pub transitions: HashMap<usize, Vec<(char, usize)>>,
}

/// `i` is the first position of `row` that reads `c`.
pub open spec fn first_hit(row: Seq<(char, usize)>, c: char, i: int) -> bool {
    &&& 0 <= i < row.len()
    &&& row[i].0 == c
    &&& forall|j: int| 0 <= j < i ==> row[j].0 != c
}

/// The target `row` gives for `c`, if any.
pub open spec fn row_lookup(row: Seq<(char, usize)>, c: char) -> Option<usize> {
    if exists|i: int| first_hit(row, c, i) {
        Some(row[choose|i: int| first_hit(row, c, i)].1)
    } else {
        None
    }
}

pub proof fn lemma_first_hit_unique(row: Seq<(char, usize)>, c: char, i: int, j: int)
    requires
        first_hit(row, c, i),
        first_hit(row, c, j),
    ensures
        i == j,
{
}

/// In a row with distinct characters, any pair reading `c` is the one looked up.
pub proof fn lemma_row_lookup_at(row: Seq<(char, usize)>, c: char, i: int)
    requires
        0 <= i < row.len(),
        row[i].0 == c,
        forall|k1: int, k2: int| 0 <= k1 < row.len() && 0 <= k2 < row.len() && k1 != k2 ==> row[k1].0 != row[k2].0,
    ensures
        row_lookup(row, c) == Some(row[i].1),
{
    assert(first_hit(row, c, i));
    let j = choose|j: int| first_hit(row, c, j);
    lemma_first_hit_unique(row, c, i, j);
}

/// The pairs a transition table lists for state `s`.
pub open spec fn map_row(m: Map<usize, Vec<(char, usize)>>, s: usize) -> Seq<(char, usize)> {
    if m.contains_key(s) {
        m[s]@
    } else {
        Seq::empty()
    }
}

impl DFA {
    /// The pairs listed for state `s`.
    pub open spec fn row(&self, s: usize) -> Seq<(char, usize)> {
        map_row(self.transitions@, s)
    }

    /// The move of `s` on `c`, if it has one.
    pub open spec fn next(&self, s: usize, c: char) -> Option<usize> {
        row_lookup(self.row(s), c)
    }

    /// At most one pair per character in every row.
    pub open spec fn deterministic(&self) -> bool {
        forall|s: usize, k1: int, k2: int|
            0 <= k1 < self.row(s).len() && 0 <= k2 < self.row(s).len() && k1 != k2
                ==> #[trigger] self.row(s)[k1].0 != #[trigger] self.row(s)[k2].0
    }

    /// The state reached from `s` by reading `w`, if no move is missing on the way.
    pub open spec fn run_from(&self, s: usize, w: Seq<char>) -> Option<usize>
        decreases w.len(),
    {
        if w.len() == 0 {
            Some(s)
        } else {
            match self.run_from(s, w.drop_last()) {
                Some(t) => self.next(t, w.last()),
                None => None,
            }
        }
    }

    /// The state reached from the start by reading `w`.
    pub open spec fn run(&self, w: Seq<char>) -> Option<usize> {
        self.run_from(self.start, w)
    }

    /// The automaton accepts `w`: reading it ends in an accepting state.
    pub open spec fn accepts_word(&self, w: Seq<char>) -> bool {
        match self.run(w) {
            Some(t) => self.accepts@.contains(t),
            None => false,
        }
    }

    /// The states some input leads to from the start.
    pub open spec fn reachable(&self) -> Set<usize> {
        Set::new(|s: usize| exists|w: Seq<char>| #[trigger] self.run(w) == Some(s))
    }

    /// Every state the automaton mentions: the start, the accepting states,
    /// and every source and target of a listed move.
    pub open spec fn states(&self) -> Set<usize> {
        Set::new(
            |s: usize|
                s == self.start || self.accepts@.contains(s) || self.transitions@.contains_key(s) || exists|
                    u: usize,
                    k: int,
                | 0 <= k < self.row(u).len() && #[trigger] self.row(u)[k].1 == s,
        )
    }

    /// The move of `state` on `c`, if it has one.
    pub fn step(&self, state: usize, c: char) -> (r: Option<usize>)
        ensures
            r == self.next(state, c),
    {
        match self.transitions.get(&state) {
            None => None,
            Some(row) => {
                assert(row@ == self.row(state));
                let mut k: usize = 0;
                while k < row.len()
                    invariant
                        row@ == self.row(state),
                        k <= row.len(),
                        forall|j: int| 0 <= j < k ==> row@[j].0 != c,
                    decreases row.len() - k,
                {
                    if row[k].0 == c {
                        assert(first_hit(row@, c, k as int));
                        let ghost i = choose|i: int| first_hit(row@, c, i);
                        proof {
                            lemma_first_hit_unique(row@, c, k as int, i);
                        }
                        return Some(row[k].1);
                    }
                    k = k + 1;
                }
                None
            },
        }
    }

    /// Runs the automaton on `input`: rejects as soon as a move is missing,
    /// and otherwise accepts when the last state is accepting.
    pub fn accepts(&self, input: &str) -> (r: bool)
        ensures
            r == self.accepts_word(input@),
    {
        let mut state = self.start;
        let ghost w = input@;
        for ch in it: input.chars()
            invariant
                it.seq() == w,
                w == input@,
                self.run(w.take(it.index() as int)) == Some(state),
        {
            let ghost i = it.index() as int;
            proof {
                assert(w.take(i + 1).drop_last() =~= w.take(i));
                assert(ch == w[i]);
                assert(w.take(i + 1).last() == ch);
            }
            match self.step(state, ch) {
                Some(next) => state = next,
                None => {
                    proof {
                        assert(self.run(w.take(i + 1)) is None);
                        lemma_run_stuck(self, w, i + 1);
                        assert(!self.accepts_word(w));
                        assert(w == input@);
                    }
                    return false;
                },
            }
        }
        assert(w.take(w.len() as int) =~= w);
        self.accepts.contains(&state)
    }
}

/// Once a move is missing, every longer input is rejected.
proof fn lemma_run_stuck(d: &DFA, w: Seq<char>, i: int)
    requires
        0 <= i <= w.len(),
        d.run(w.take(i)) is None,
    ensures
        !d.accepts_word(w),
    decreases w.len() - i,
{
    if i < w.len() {
        assert(w.take(i + 1).drop_last() =~= w.take(i));
        lemma_run_stuck(d, w, i + 1);
    } else {
        assert(w.take(i) =~= w);
    }
}

/// Row `drow` of the subset automaton is faithful for composite state `j`:
/// each pair reads `c` into the composite state of the `c`-move of `j`'s set
/// (never empty), every character with a non-empty move has a pair, and no
/// character has two.
pub open spec fn subset_row_ok(nfa: &NFA, keys: Seq<Vec<bool>>, j: int, drow: Seq<(char, usize)>) -> bool {
    &&& forall|k: int| 0 <= k < drow.len() ==> {
        &&& ((#[trigger] drow[k]).1 as int) < keys.len()
        &&& nfa.step(key_set(keys, j), drow[k].0) != Set::<usize>::empty()
        &&& key_set(keys, drow[k].1 as int) == nfa.step(key_set(keys, j), drow[k].0)
    }
    &&& forall|d: char| #[trigger] nfa.step(key_set(keys, j), d) != Set::<usize>::empty() ==> exists|k: int|
        0 <= k < drow.len() && #[trigger] drow[k].0 == d
    &&& forall|k1: int, k2: int| 0 <= k1 < drow.len() && 0 <= k2 < drow.len() && k1 != k2 ==> drow[k1].0 != drow[k2].0
}

/// The characters of a row of character-labelled edges.
fn to_char_row(row: &Vec<(TransitionLabel, StateID)>) -> (r: Vec<(char, StateID)>)
    ensures
        r@.len() == row@.len(),
        forall|k: int| 0 <= k < r@.len() ==> #[trigger] r@[k] == (label_char(row@[k].0), row@[k].1),
{
    let mut r: Vec<(char, StateID)> = Vec::new();
    for k in 0..row.len()
        invariant
            r@.len() == k,
            forall|q: int| 0 <= q < k ==> #[trigger] r@[q] == (label_char(row@[q].0), row@[q].1),
    {
        let c = match row[k].0 {
            TransitionLabel::Char(c) => c,
            TransitionLabel::Epsilon => ' ',
        };
        r.push((c, row[k].1));
    }
    r
}

proof fn lemma_subset_next(nfa: &NFA, d: &DFA, keys: Seq<Vec<bool>>, j: usize, c: char)
    requires
        nfa.wf(),
        keys_ok(nfa, keys, false),
        (j as int) < keys.len(),
        subset_row_ok(nfa, keys, j as int, d.row(j)),
    ensures
        ({
            let mv = nfa.step(key_set(keys, j as int), c);
            if mv == Set::<usize>::empty() {
                d.next(j, c) is None
            } else {
                exists|t: usize| (t as int) < keys.len() && d.next(j, c) == Some(t) && key_set(keys, t as int) == mv
            }
        }),
{
    let row = d.row(j);
    let mv = nfa.step(key_set(keys, j as int), c);
    if mv == Set::<usize>::empty() {
        if exists|i: int| first_hit(row, c, i) {
            let i = choose|i: int| first_hit(row, c, i);
            assert(row[i].0 == c);
        }
    } else {
        let k = choose|k: int| 0 <= k < row.len() && #[trigger] row[k].0 == c;
        lemma_row_lookup_at(row, c, k);
        assert(key_set(keys, row[k].1 as int) == mv);
    }
}

/// The subset automaton follows the source automaton: after any input it stands in
/// the composite state of the source's active set, or nowhere when that
/// set is empty.
proof fn lemma_subset_sim(nfa: &NFA, d: &DFA, keys: Seq<Vec<bool>>, w: Seq<char>)
    requires
        nfa.wf(),
        nfa.epsilon_free(),
        keys_ok(nfa, keys, false),
        d.start == 0,
        forall|j: usize| (j as int) < keys.len() ==> #[trigger] subset_row_ok(nfa, keys, j as int, d.row(j)),
    ensures
        if nfa.sim(w) == Set::<usize>::empty() {
            d.run(w) is None
        } else {
            exists|t: usize| (t as int) < keys.len() && d.run(w) == Some(t) && key_set(keys, t as int) == nfa.sim(w)
        },
    decreases w.len(),
{
    if w.len() == 0 {
        lemma_closure_epsilon_free(nfa, set![nfa.start]);
        assert(nfa.sim(w).contains(nfa.start));
    } else {
        let w0 = w.drop_last();
        let c = w.last();
        lemma_subset_sim(nfa, d, keys, w0);
        lemma_closure_epsilon_free(nfa, nfa.step(nfa.sim(w0), c));
        if nfa.sim(w0) == Set::<usize>::empty() {
            lemma_step_empty(nfa, c);
        } else {
            let j = choose|t: usize| (t as int) < keys.len() && d.run(w0) == Some(t) && key_set(keys, t as int) == nfa.sim(w0);
            assert(subset_row_ok(nfa, keys, j as int, d.row(j)));
            lemma_subset_next(nfa, d, keys, j, c);
        }
    }
}

/// `r` is the subset automaton of `nfa` over the distinct sets `sets`: state
/// `i` stands for `sets[i]`, state 0 for `{start}`; on a character, `i` moves
/// to the state of the set its members reach on it, and has no move when that
/// set is empty; `i` accepts when `sets[i]` meets the accept set; `r`
/// mentions no other states.
pub open spec fn subset_automaton(nfa: &NFA, r: &DFA, sets: Seq<Set<usize>>) -> bool {
    &&& sets.len() >= 1
    &&& sets[0] == set![nfa.start]
    &&& forall|i: int, j: int| 0 <= i < sets.len() && 0 <= j < sets.len() && i != j ==> sets[i] != sets[j]
    &&& forall|i: usize, c: char| (i as int) < sets.len() ==> {
        &&& (#[trigger] r.next(i, c) is None) == (nfa.step(sets[i as int], c) == Set::<usize>::empty())
        &&& r.next(i, c) matches Some(j) ==> (j as int) < sets.len() && sets[j as int] == nfa.step(sets[i as int], c)
    }
    &&& forall|x: usize| #[trigger] r.accepts@.contains(x) <==> ((x as int) < sets.len() && exists|a: usize|
        sets[x as int].contains(a) && nfa.accept_set().contains(a))
    &&& forall|s: usize| #[trigger] r.states().contains(s) <==> (s as int) < sets.len()
    &&& forall|k: usize| 1 <= k < sets.len() ==> #[trigger] moved_into_from_before(r, k)
    &&& forall|k1: usize, k2: usize| 1 <= k1 < k2 < sets.len() ==> #[trigger] reached_in_order(r, k1, k2)
}

/// Breadth-first numbering: every move into `k2` comes, in the order of
/// (state, character), after some move into `k1`.
pub open spec fn reached_in_order(r: &DFA, k1: usize, k2: usize) -> bool {
    forall|i: usize, c: char| #[trigger] r.next(i, c) == Some(k2) ==> exists|i2: usize, c2: char|
        crate::subset::pair_lt(i2 as int, c2, i as int, c) && r.next(i2, c2) == Some(k1)
}

/// A state numbered before `k` moves into `k` on some character; so every
/// state is reached from state 0.
pub open spec fn moved_into_from_before(r: &DFA, k: usize) -> bool {
    exists|i: usize, c: char| i < k && #[trigger] r.next(i, c) == Some(k)
}

/// Subset construction. Composite state 0 stands for `{start}`; breadth-first,
/// each composite state reads each symbol (in increasing order) into the set
/// its members reach on it, a new composite state the first time that set is
/// seen; an empty set gives no move. A composite state accepts when its set
/// meets the accept set. For an automaton without silent edges the result
/// accepts exactly the same inputs, and it has at most `2^n` states.
#[verifier::spinoff_prover]
pub fn nfa_to_dfa(nfa: &NFA) -> (r: DFA)
    requires
        nfa.wf(),
        nfa.epsilon_free(),
    ensures
        r.start == 0,
        r.deterministic(),
        forall|w: Seq<char>| #[trigger] r.accepts_word(w) == nfa.accepts(w),
        forall|s: usize| #[trigger] r.states().contains(s) ==> (s as nat) < pow2(nfa.n()),
        exists|sets: Seq<Set<usize>>| subset_automaton(nfa, &r, sets) && sets.len() <= pow2(nfa.n()),
{
    let n = nfa.transitions.len();
    let symbols = collect_symbols(nfa);
    let mut start_set: HashSet<StateID> = HashSet::new();
    start_set.insert(nfa.start);
    let mut keys: Vec<Vec<bool>> = Vec::new();
    let start_key = bits_of(&start_set, n);
    keys.push(start_key);
    assert(key_set(keys@, 0) =~= initial(nfa, false));
    let mut transitions: HashMap<usize, Vec<(char, usize)>> = HashMap::new();
    let mut head: usize = 0;
    proof {
        lemma_pow2_positive(n as nat);
        crate::subset::lemma_search_start(nfa, keys@, false, symbols@);
    }
    while head < keys.len()
        invariant
            nfa.wf(),
            n as int == nfa.n(),
            symbols@.no_duplicates(),
            symbols@.to_set() == nfa.alphabet(),
            keys_ok(nfa, keys@, false),
            keys.len() <= pow2(n as nat),
            head <= keys.len(),
            crate::subset::increasing(symbols@),
            crate::subset::search_ok(nfa, keys@, false, symbols@, head as int, 0),
            forall|s: usize| #[trigger] transitions@.contains_key(s) ==> s < head,
            forall|j: usize| j < head ==> #[trigger] subset_row_ok(nfa, keys@, j as int,
                map_row(transitions@, j)),
        decreases pow2(n as nat) - head,
    {
        let ghost old_keys = keys@;
        let ghost old_tr = transitions@;
        let row = expand(nfa, &symbols, &mut keys, head, false);
        let drow = to_char_row(&row);
        let ghost dr = drow@;
        if drow.len() > 0 {
            transitions.insert(head, drow);
        }
        proof {
            lemma_keys_extend(nfa, old_keys, keys@, false);
            let rowj = map_row(transitions@, head);
            assert(rowj == dr) by {
                if dr.len() == 0 {
                    assert(dr =~= Seq::<(char, usize)>::empty());
                }
            }
            assert forall|k: int| 0 <= k < dr.len() implies {
                &&& ((#[trigger] dr[k]).1 as int) < keys@.len()
                &&& nfa.step(key_set(keys@, head as int), dr[k].0) != Set::<usize>::empty()
                &&& key_set(keys@, dr[k].1 as int) == nfa.step(key_set(keys@, head as int), dr[k].0)
            } by {
                assert(edge_sound(nfa, keys@, false, head as int, row@[k]));
            }
            assert forall|d: char| #[trigger] nfa.step(key_set(keys@, head as int), d) != Set::<usize>::empty() implies exists|k: int|
                0 <= k < dr.len() && #[trigger] dr[k].0 == d by {
                if !nfa.alphabet().contains(d) {
                    lemma_step_outside_alphabet(nfa, key_set(keys@, head as int), d);
                }
                assert(row_complete(nfa, keys@, head as int, row@, d));
                let k = choose|k: int| 0 <= k < row@.len() && #[trigger] row@[k].0 == TransitionLabel::Char(d);
                assert(dr[k].0 == d);
            }
            assert forall|k1: int, k2: int| 0 <= k1 < dr.len() && 0 <= k2 < dr.len() && k1 != k2 implies dr[k1].0 != dr[k2].0 by {
                assert(edge_sound(nfa, keys@, false, head as int, row@[k1]));
                assert(edge_sound(nfa, keys@, false, head as int, row@[k2]));
            }
            assert(subset_row_ok(nfa, keys@, head as int, rowj));
            assert forall|j: usize| j < head + 1 implies #[trigger] subset_row_ok(nfa, keys@, j as int,
                map_row(transitions@, j)) by {
                if j < head {
                    let rj = map_row(old_tr, j);
                    assert(subset_row_ok(nfa, old_keys, j as int, rj));
                    assert(transitions@.contains_key(j) == old_tr.contains_key(j));
                    assert forall|k: int| 0 <= k < rj.len() implies (#[trigger] rj[k]).1 < old_keys.len() by {}
                    assert(key_set(keys@, j as int) == key_set(old_keys, j as int));
                    assert forall|k: int| 0 <= k < rj.len() implies key_set(keys@, (#[trigger] rj[k]).1 as int)
                        == key_set(old_keys, rj[k].1 as int) by {}
                }
            }
        }
        head = head + 1;
    }
    let mut accepts: HashSet<usize> = HashSet::new();
    for i in 0..keys.len()
        invariant
            forall|x: usize| #[trigger] accepts@.contains(x) <==> (x < i && composite_accepts(nfa, keys@, x as int)),
    {
        let meets = meets_accept(&keys[i], &nfa.accept);
        proof {
            if meets {
                let a = choose|a: usize| crate::subset::bits_set(keys@[i as int]@).contains(a) && nfa.accept@.contains(a);
                assert(nfa.accept_set().contains(a));
                assert(key_set(keys@, i as int).contains(a));
            }
            if composite_accepts(nfa, keys@, i as int) {
                let a = choose|a: usize| key_set(keys@, i as int).contains(a) && nfa.accept_set().contains(a);
                assert(nfa.accept@.contains(a));
            }
        }
        if meets {
            accepts.insert(i);
        }
    }
    let r = DFA { start: 0, accepts, transitions };
    proof {
        assert forall|j: usize| (j as int) < keys.len() implies #[trigger] subset_row_ok(nfa, keys@, j as int, r.row(j)) by {
            assert(subset_row_ok(nfa, keys@, j as int,
                map_row(transitions@, j)));
        }
        assert forall|w: Seq<char>| #[trigger] r.accepts_word(w) == nfa.accepts(w) by {
            lemma_subset_accepts(nfa, &r, keys@, w);
        }
        assert forall|s: usize, k1: int, k2: int|
            0 <= k1 < r.row(s).len() && 0 <= k2 < r.row(s).len() && k1 != k2
                implies #[trigger] r.row(s)[k1].0 != #[trigger] r.row(s)[k2].0 by {
            if r.transitions@.contains_key(s) {
                assert(subset_row_ok(nfa, keys@, s as int, r.row(s)));
            }
        }
        assert forall|s: usize| #[trigger] r.states().contains(s) implies (s as int) < keys@.len() by {
            if exists|u: usize, k: int| 0 <= k < r.row(u).len() && #[trigger] r.row(u)[k].1 == s {
                let (u, k) = choose|u: usize, k: int| 0 <= k < r.row(u).len() && #[trigger] r.row(u)[k].1 == s;
                assert(r.transitions@.contains_key(u));
                assert(subset_row_ok(nfa, keys@, u as int, r.row(u)));
                assert(r.row(u)[k].1 < keys.len());
            }
        }
        let sets = Seq::new(keys@.len(), |i: int| key_set(keys@, i));
        assert forall|i: int, j: int| 0 <= i < sets.len() && 0 <= j < sets.len() && i != j implies sets[i] != sets[j] by {
            if sets[i] == sets[j] {
                lemma_key_unique(nfa, keys@, false, i, j);
            }
        }
        assert forall|i: usize, c: char| (i as int) < sets.len() implies {
            &&& (#[trigger] r.next(i, c) is None) == (nfa.step(sets[i as int], c) == Set::<usize>::empty())
            &&& r.next(i, c) matches Some(j) ==> (j as int) < sets.len() && sets[j as int] == nfa.step(sets[i as int], c)
        } by {
            lemma_subset_next(nfa, &r, keys@, i, c);
            if let Some(j) = r.next(i, c) {
                if nfa.step(sets[i as int], c) != Set::<usize>::empty() {
                    let t = choose|t: usize| (t as int) < keys.len() && r.next(i, c) == Some(t) && key_set(keys@, t as int) == nfa.step(key_set(keys@, i as int), c);
                }
            }
        }
        assert forall|x: usize| #[trigger] r.accepts@.contains(x) <==> ((x as int) < sets.len() && exists|a: usize|
            sets[x as int].contains(a) && nfa.accept_set().contains(a)) by {
            if (x as int) < sets.len() {
                assert(composite_accepts(nfa, keys@, x as int) == exists|a: usize| sets[x as int].contains(a) && nfa.accept_set().contains(a));
            }
        }
        assert forall|k: usize| 1 <= k < sets.len() implies #[trigger] moved_into_from_before(&r, k) by {
            assert(crate::subset::discovered(nfa, keys@, false, k as int));
            let (i, c) = choose|i: int, c: char|
                0 <= i < k && nfa.step(key_set(keys@, i), c) != Set::<usize>::empty() && key_set(keys@, k as int)
                    == crate::subset::successor(nfa, key_set(keys@, i), c, false);
            let iu = i as usize;
            lemma_subset_next(nfa, &r, keys@, iu, c);
            let t = choose|t: usize| (t as int) < keys.len() && r.next(iu, c) == Some(t) && key_set(keys@, t as int) == nfa.step(key_set(keys@, iu as int), c);
            lemma_key_unique(nfa, keys@, false, t as int, k as int);
            assert(iu < k && r.next(iu, c) == Some(k));
        }
        assert forall|k1: usize, k2: usize| 1 <= k1 < k2 < sets.len() implies #[trigger] reached_in_order(&r, k1, k2) by {
            assert forall|i: usize, c: char| #[trigger] r.next(i, c) == Some(k2) implies exists|i2: usize, c2: char|
                crate::subset::pair_lt(i2 as int, c2, i as int, c) && r.next(i2, c2) == Some(k1) by {
                let h = choose|h: int| first_hit(r.row(i), c, h);
                assert(r.transitions@.contains_key(i));
                assert(r.states().contains(i));
                lemma_subset_next(nfa, &r, keys@, i, c);
                assert(crate::subset::hits(nfa, keys@, false, i as int, c, k2 as int));
                assert(crate::subset::numbered_in_order(nfa, keys@, false));
                assert(crate::subset::hit_before(nfa, keys@, false, k1 as int, i as int, c));
                let (i2, c2) = choose|i2: int, c2: char| crate::subset::pair_lt(i2, c2, i as int, c)
                    && crate::subset::hits(nfa, keys@, false, i2, c2, k1 as int);
                let i2u = i2 as usize;
                lemma_subset_next(nfa, &r, keys@, i2u, c2);
                let t = choose|t: usize| (t as int) < keys.len() && r.next(i2u, c2) == Some(t) && key_set(keys@, t as int) == nfa.step(key_set(keys@, i2u as int), c2);
                lemma_key_unique(nfa, keys@, false, t as int, k1 as int);
                assert(crate::subset::pair_lt(i2u as int, c2, i as int, c) && r.next(i2u, c2) == Some(k1));
            }
        }
        assert forall|s: usize| #[trigger] r.states().contains(s) <==> (s as int) < sets.len() by {
            if (s as int) < sets.len() && s != 0 {
                assert(moved_into_from_before(&r, s));
                let (i, c) = choose|i: usize, c: char| i < s && #[trigger] r.next(i, c) == Some(s);
                let h = choose|h: int| first_hit(r.row(i), c, h);
                assert(r.row(i)[h].1 == s);
                assert(r.states().contains(s));
            }
        }
        assert(subset_automaton(nfa, &r, sets));
    }
    r
}

proof fn lemma_subset_accepts(nfa: &NFA, d: &DFA, keys: Seq<Vec<bool>>, w: Seq<char>)
    requires
        nfa.wf(),
        nfa.epsilon_free(),
        keys_ok(nfa, keys, false),
        d.start == 0,
        forall|j: usize| (j as int) < keys.len() ==> #[trigger] subset_row_ok(nfa, keys, j as int, d.row(j)),
        forall|x: usize| #[trigger] d.accepts@.contains(x) <==> ((x as int) < keys.len() && composite_accepts(nfa, keys, x as int)),
    ensures
        d.accepts_word(w) == nfa.accepts(w),
{
    lemma_subset_sim(nfa, d, keys, w);
    if nfa.sim(w) != Set::<usize>::empty() {
        let t = choose|t: usize| (t as int) < keys.len() && d.run(w) == Some(t) && key_set(keys, t as int) == nfa.sim(w);
        if nfa.accepts(w) {
            let a = choose|a: usize| nfa.sim(w).contains(a) && nfa.accept_set().contains(a);
            assert(composite_accepts(nfa, keys, t as int));
        }
        if d.accepts_word(w) {
            assert(composite_accepts(nfa, keys, t as int));
            let b = choose|b: usize| key_set(keys, t as int).contains(b) && nfa.accept_set().contains(b);
            assert(nfa.sim(w).contains(b));
        }
    } else {
        if nfa.accepts(w) {
            let a = choose|a: usize| nfa.sim(w).contains(a) && nfa.accept_set().contains(a);
        }
    }
}

} // verus!
