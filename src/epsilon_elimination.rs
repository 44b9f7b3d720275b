//! Epsilon-closures, moves on a character, and elimination of silent
//! edges by treating each distinct closure as one state.
use crate::bounds::{lemma_dense_len, lemma_distinct_below, lemma_pow2_positive, pow2};
use crate::nfa::{
    lemma_reach_refl, lemma_closure_below, lemma_closure_contains, lemma_closure_empty, lemma_closure_epsilon_free,
    lemma_closure_least, lemma_reach_extend, lemma_step_empty, lemma_step_outside_alphabet,
    StateID, TransitionLabel, NFA,
};
use crate::subset::{
    bits_of, bits_set, collect_symbols, composite_accepts, edge_sound, expand, initial, key_set, keys_ok, label_char,
    lemma_key_unique, lemma_keys_extend, meets_accept, row_complete,
};
use std::collections::HashMap;
use std::collections::HashSet;
use vstd::prelude::*;
use vstd::std_specs::iter::IteratorSpec;

verus! {

broadcast use vstd::std_specs::hash::group_hash_axioms;

/// The epsilon-closure of one state: every state reached from `s` by silent
/// edges, `s` included.
pub fn epsilon_closure_of_state(nfa: &NFA, s: StateID) -> (r: HashSet<StateID>)
    requires
        nfa.wf(),
    ensures
        r@ == nfa.closure(set![s]),
        r@.contains(s),
{
    let mut init: HashSet<StateID> = HashSet::new();
    init.insert(s);
    assert(init@ =~= set![s]);
    proof {
        lemma_closure_contains(nfa, set![s]);
    }
    epsilon_closure_of_set(nfa, &init)
}

/// The members of `set` that are states of `nfa`.
pub open spec fn in_range(nfa: &NFA, set: Set<usize>) -> Set<usize> {
    Set::new(|s: usize| set.contains(s) && (s as int) < nfa.n())
}

/// The epsilon-closure of the members of `states` that are states of `nfa`,
/// by one breadth-first search that shares its visited set among all members.
#[verifier::spinoff_prover]
fn closure_in_range(nfa: &NFA, states: &HashSet<StateID>) -> (r: HashSet<StateID>)
    requires
        nfa.wf(),
    ensures
        r@ == nfa.closure(in_range(nfa, states@)),
{
    let ghost sb = in_range(nfa, states@);
    let n = nfa.transitions.len();
    let mut res: HashSet<StateID> = HashSet::new();
    let mut order: Vec<StateID> = Vec::new();
    for s in 0..n
        invariant
            n as int == nfa.n(),
            res@ == order@.to_set(),
            order@.no_duplicates(),
            forall|i: int| 0 <= i < order.len() ==> (#[trigger] order@[i] as int) < s,
            forall|x: usize| #[trigger] res@.contains(x) <==> (x < s && states@.contains(x)),
    {
        if states.contains(&s) {
            proof {
                order@.lemma_push_to_set_commute(s);
            }
            res.insert(s);
            order.push(s);
        }
    }
    assert(res@ =~= sb);
    proof {
        lemma_closure_contains(nfa, sb);
        lemma_distinct_below(order@, n as nat);
    }
    let mut head: usize = 0;
    while head < order.len()
        invariant
            nfa.wf(),
            n as int == nfa.n(),
            res@ == order@.to_set(),
            order@.no_duplicates(),
            order.len() <= n,
            head <= order.len(),
            forall|i: int| 0 <= i < order.len() ==> (#[trigger] order@[i] as int) < n,
            sb == in_range(nfa, states@),
            sb.subset_of(res@),
            res@.subset_of(nfa.closure(sb)),
            forall|i: int, y: usize|
                0 <= i < head && #[trigger] nfa.eps_step(order@[i], y) ==> res@.contains(y),
        decreases n - head,
    {
        let v = order[head];
        assert(order@.contains(v));
        let edges = nfa.transitions.get(&v).unwrap();
        assert(edges@ == nfa.edges(v));
        let ghost before = order@;
        for j in 0..edges.len()
            invariant
                nfa.wf(),
                n as int == nfa.n(),
                edges@ == nfa.edges(v),
                res@ == order@.to_set(),
                order@.no_duplicates(),
                order.len() <= n,
                head < order.len(),
                order@[head as int] == v,
                before.len() <= order.len(),
                forall|i: int| 0 <= i < before.len() ==> order@[i] == before[i],
                forall|i: int| 0 <= i < order.len() ==> (#[trigger] order@[i] as int) < n,
                sb == in_range(nfa, states@),
                sb.subset_of(res@),
                res@.subset_of(nfa.closure(sb)),
                forall|i: int, y: usize|
                    0 <= i < head && #[trigger] nfa.eps_step(order@[i], y) ==> res@.contains(y),
                forall|jj: int|
                    0 <= jj < j && (#[trigger] edges@[jj]).0 == TransitionLabel::Epsilon
                        ==> res@.contains(edges@[jj].1),
        {
            let (label, to) = edges[j];
            assert(edges@[j as int] == (label, to));
            if label == TransitionLabel::Epsilon && !res.contains(&to) {
                proof {
                    assert(nfa.eps_step(v, to));
                    assert(res@.contains(v));
                    let s0 = choose|s0: usize| sb.contains(s0) && #[trigger] nfa.eps_reach(s0, v);
                    lemma_reach_extend(nfa, s0, v, to);
                    order@.lemma_push_to_set_commute(to);
                    assert(edges@[j as int].1 == to);
                    assert((to as int) < n);
                }
                let ghost prev = order@;
                res.insert(to);
                order.push(to);
                proof {
                    assert forall|i: int| 0 <= i < order.len() implies (#[trigger] order@[i] as int) < n by {
                        if i < order.len() - 1 {
                            assert(order@[i] == prev[i]);
                        }
                    }
                    lemma_distinct_below(order@, n as nat);
                }
            }
        }
        proof {
            assert forall|i: int, y: usize|
                0 <= i < head + 1 && #[trigger] nfa.eps_step(order@[i], y) implies res@.contains(y) by {
                if i == head {
                    let jj = choose|jj: int|
                        0 <= jj < nfa.edges(v).len() && #[trigger] nfa.edges(v)[jj] == (TransitionLabel::Epsilon, y);
                    assert(edges@[jj].0 == TransitionLabel::Epsilon);
                }
            }
        }
        head = head + 1;
    }
    proof {
        assert forall|x: usize, y: usize| res@.contains(x) && #[trigger] nfa.eps_step(x, y) implies res@.contains(y) by {
            assert(order@.contains(x));
            let i = choose|i: int| 0 <= i < order.len() && order@[i] == x;
        }
        lemma_closure_least(nfa, sb, res@);
    }
    assert(res@ =~= nfa.closure(sb));
    res
}

/// Nothing leaves an id that is not a state, so such a member of a set only
/// adds itself to the closure.
proof fn lemma_closure_split(nfa: &NFA, set: Set<usize>)
    requires
        nfa.wf(),
    ensures
        nfa.closure(set) == nfa.closure(in_range(nfa, set)) + Set::new(|s: usize| set.contains(s) && (s as int) >= nfa.n()),
{
    let sb = in_range(nfa, set);
    let out = Set::new(|s: usize| set.contains(s) && (s as int) >= nfa.n());
    assert forall|t: usize| nfa.closure(set).contains(t) implies nfa.closure(sb).contains(t) || out.contains(t) by {
        let s = choose|s: usize| set.contains(s) && #[trigger] nfa.eps_reach(s, t);
        let p = choose|p: Seq<usize>| #[trigger] nfa.eps_path(p) && p[0] == s && p.last() == t;
        if (s as int) < nfa.n() {
            assert(sb.contains(s));
        } else if p.len() > 1 {
            let z: int = 0;
            assert(nfa.eps_step(p[z], p[z + 1]));
            assert(!nfa.transitions@.contains_key(s));
            assert(nfa.edges(s).len() == 0);
        }
    }
    assert forall|t: usize| nfa.closure(sb).contains(t) || out.contains(t) implies nfa.closure(set).contains(t) by {
        if nfa.closure(sb).contains(t) {
            let s = choose|s: usize| sb.contains(s) && #[trigger] nfa.eps_reach(s, t);
        } else {
            lemma_reach_refl(nfa, t);
        }
    }
    assert(nfa.closure(set) =~= nfa.closure(sb) + out);
}

/// The epsilon-closure of a set of ids: every id reached from a member by
/// silent edges, the members included.
#[verifier::spinoff_prover]
pub fn epsilon_closure_of_set(nfa: &NFA, states: &HashSet<StateID>) -> (r: HashSet<StateID>)
    requires
        nfa.wf(),
    ensures
        r@ == nfa.closure(states@),
{
    let n = nfa.transitions.len();
    let mut res = closure_in_range(nfa, states);
    let ghost base = res@;
    for a in it: states.iter()
        invariant
            n as int == nfa.n(),
            base == nfa.closure(in_range(nfa, states@)),
            it.seq() == vstd::std_specs::hash::spec_hash_keys_iter(states).remaining(),
            forall|x: usize| #[trigger] res@.contains(x) <==> (base.contains(x) || exists|q: int|
                0 <= q < it.index() && *it.seq()[q] == x && x >= n),
    {
        if *a >= n {
            res.insert(*a);
        }
    }
    proof {
        lemma_closure_split(nfa, states@);
        let v = vstd::std_specs::hash::spec_hash_keys_iter(states).remaining();
        assert forall|x: usize| #[trigger] res@.contains(x) <==> nfa.closure(states@).contains(x) by {
            if exists|q: int| 0 <= q < v.len() && *v[q] == x && x >= n {
                let q = choose|q: int| 0 <= q < v.len() && *v[q] == x && x >= n;
                assert(v.unref()[q] == x);
                assert(v.unref().to_set().contains(x));
            }
            if states@.contains(x) && x >= n {
                assert(v.unref().to_set().contains(x));
                let q = choose|q: int| 0 <= q < v.unref().len() && v.unref()[q] == x;
                assert(*v[q] == x);
            }
        }
        assert(res@ =~= nfa.closure(states@));
    }
    res
}



/// The states entered from `states` by exactly one edge labelled `c`.
pub fn move_on_char(nfa: &NFA, states: &HashSet<StateID>, c: char) -> (r: HashSet<StateID>)
    requires
        nfa.wf(),
    ensures
        r@ == nfa.step(states@, c),
        forall|t: usize| r@.contains(t) ==> (t as int) < nfa.n(),
{
    let n = nfa.transitions.len();
    let mut res: HashSet<StateID> = HashSet::new();
    for s in 0..n
        invariant
            nfa.wf(),
            n as int == nfa.n(),
            forall|t: usize|
                #[trigger] res@.contains(t) <==> exists|x: usize, i: int|
                    x < s && states@.contains(x) && 0 <= i < nfa.edges(x).len()
                        && #[trigger] nfa.edges(x)[i] == (TransitionLabel::Char(c), t),
    {
        if states.contains(&s) {
            let edges = nfa.transitions.get(&s).unwrap();
            assert(edges@ == nfa.edges(s));
            let ghost pre = res@;
            for j in 0..edges.len()
                invariant
                    nfa.wf(),
                    edges@ == nfa.edges(s),
                    states@.contains(s),
                    forall|t: usize|
                        #[trigger] res@.contains(t) <==> (pre.contains(t) || exists|i: int|
                            0 <= i < j && #[trigger] edges@[i] == (TransitionLabel::Char(c), t)),
            {
                let (label, to) = edges[j];
                assert(edges@[j as int] == (label, to));
                if label == TransitionLabel::Char(c) {
                    res.insert(to);
                }
            }
            assert forall|t: usize|
                #[trigger] res@.contains(t) <==> exists|x: usize, i: int|
                    x < s + 1 && states@.contains(x) && 0 <= i < nfa.edges(x).len()
                        && #[trigger] nfa.edges(x)[i] == (TransitionLabel::Char(c), t) by {
                if res@.contains(t) && !pre.contains(t) {
                    let i = choose|i: int| 0 <= i < edges.len() && #[trigger] edges@[i] == (TransitionLabel::Char(c), t);
                    assert(nfa.edges(s)[i] == (TransitionLabel::Char(c), t));
                }
                if exists|x: usize, i: int|
                    x < s + 1 && states@.contains(x) && 0 <= i < nfa.edges(x).len()
                        && #[trigger] nfa.edges(x)[i] == (TransitionLabel::Char(c), t) {
                    let (x, i) = choose|x: usize, i: int|
                        x < s + 1 && states@.contains(x) && 0 <= i < nfa.edges(x).len()
                            && #[trigger] nfa.edges(x)[i] == (TransitionLabel::Char(c), t);
                    if x == s {
                        assert(edges@[i] == (TransitionLabel::Char(c), t));
                    } else {
                        assert(pre.contains(t));
                    }
                }
            }
        }
    }
    assert(res@ =~= nfa.step(states@, c));
    res
}

/// What composite state `j` reads on `c`, given a faithful row.
proof fn lemma_row_step(nfa: &NFA, r: &NFA, keys: Seq<Vec<bool>>, j: usize, c: char)
    requires
        nfa.wf(),
        keys_ok(nfa, keys, true),
        (j as int) < keys.len(),
        forall|k: int| 0 <= k < r.edges(j).len() ==> edge_sound(nfa, keys, true, j as int, #[trigger] r.edges(j)[k]),
        forall|d: char| nfa.alphabet().contains(d) ==> #[trigger] row_complete(nfa, keys, j as int, r.edges(j), d),
    ensures
        ({
            let next = nfa.closure(nfa.step(key_set(keys, j as int), c));
            if next == Set::<usize>::empty() {
                r.step(set![j], c) == Set::<usize>::empty()
            } else {
                exists|t: usize| (t as int) < keys.len() && r.step(set![j], c) == set![t] && key_set(keys, t as int) == next
            }
        }),
{
    let mv = nfa.step(key_set(keys, j as int), c);
    let next = nfa.closure(mv);
    if mv == Set::<usize>::empty() {
        lemma_closure_empty(nfa);
        assert forall|t: usize| !r.step(set![j], c).contains(t) by {
            if r.step(set![j], c).contains(t) {
                let (s, k) = choose|s: usize, k: int|
                    set![j].contains(s) && 0 <= k < r.edges(s).len() && #[trigger] r.edges(s)[k] == (TransitionLabel::Char(c), t);
                assert(edge_sound(nfa, keys, true, j as int, r.edges(j)[k]));
            }
        }
        assert(r.step(set![j], c) =~= Set::<usize>::empty());
    } else {
        lemma_closure_contains(nfa, mv);
        assert(next != Set::<usize>::empty()) by {
            assert(exists|x: usize| mv.contains(x)) by {
                if !(exists|x: usize| mv.contains(x)) {
                    assert(mv =~= Set::<usize>::empty());
                }
            }
            let x = choose|x: usize| mv.contains(x);
            assert(next.contains(x));
        }
        if !nfa.alphabet().contains(c) {
            lemma_step_outside_alphabet(nfa, key_set(keys, j as int), c);
        }
        assert(row_complete(nfa, keys, j as int, r.edges(j), c));
        let k = choose|k: int| 0 <= k < r.edges(j).len() && #[trigger] r.edges(j)[k].0 == TransitionLabel::Char(c);
        let t = r.edges(j)[k].1;
        assert(edge_sound(nfa, keys, true, j as int, r.edges(j)[k]));
        assert forall|u: usize| r.step(set![j], c).contains(u) <==> u == t by {
            if r.step(set![j], c).contains(u) {
                let (s, k2) = choose|s: usize, k2: int|
                    set![j].contains(s) && 0 <= k2 < r.edges(s).len() && #[trigger] r.edges(s)[k2] == (TransitionLabel::Char(c), u);
                assert(edge_sound(nfa, keys, true, j as int, r.edges(j)[k2]));
                lemma_key_unique(nfa, keys, true, u as int, t as int);
            }
            if u == t {
                assert(r.edges(j)[k] == (TransitionLabel::Char(c), t));
                assert(set![j].contains(j));
            }
        }
        assert(r.step(set![j], c) =~= set![t]);
    }
}

/// The eliminated automaton follows the source automaton: after any input it
/// stands in the composite state of the source's active set, or nowhere
/// when that set is empty.
proof fn lemma_elim_sim(nfa: &NFA, r: &NFA, keys: Seq<Vec<bool>>, w: Seq<char>)
    requires
        nfa.wf(),
        keys_ok(nfa, keys, true),
        r.epsilon_free(),
        r.start == 0,
        forall|j: usize, k: int|
            (j as int) < keys.len() && 0 <= k < r.edges(j).len() ==> edge_sound(nfa, keys, true, j as int, #[trigger] r.edges(j)[k]),
        forall|j: usize, d: char|
            (j as int) < keys.len() && nfa.alphabet().contains(d) ==> #[trigger] row_complete(nfa, keys, j as int, r.edges(j), d),
    ensures
        if nfa.sim(w) == Set::<usize>::empty() {
            r.sim(w) == Set::<usize>::empty()
        } else {
            exists|t: usize| (t as int) < keys.len() && r.sim(w) == set![t] && key_set(keys, t as int) == nfa.sim(w)
        },
    decreases w.len(),
{
    if w.len() == 0 {
        lemma_closure_epsilon_free(r, set![0usize]);
        lemma_closure_contains(nfa, set![nfa.start]);
        assert(nfa.sim(w).contains(nfa.start));
    } else {
        let w0 = w.drop_last();
        let c = w.last();
        lemma_elim_sim(nfa, r, keys, w0);
        lemma_closure_epsilon_free(r, r.step(r.sim(w0), c));
        if nfa.sim(w0) == Set::<usize>::empty() {
            lemma_step_empty(nfa, c);
            lemma_step_empty(r, c);
            lemma_closure_empty(nfa);
        } else {
            let j = choose|t: usize| (t as int) < keys.len() && r.sim(w0) == set![t] && key_set(keys, t as int) == nfa.sim(w0);
            assert forall|k: int| 0 <= k < r.edges(j).len() implies edge_sound(nfa, keys, true, j as int, #[trigger] r.edges(j)[k]) by {}
            assert forall|d: char| nfa.alphabet().contains(d) implies #[trigger] row_complete(nfa, keys, j as int, r.edges(j), d) by {}
            lemma_row_step(nfa, r, keys, j, c);
        }
    }
}

proof fn lemma_elim_accepts(nfa: &NFA, r: &NFA, keys: Seq<Vec<bool>>, w: Seq<char>)
    requires
        nfa.wf(),
        keys_ok(nfa, keys, true),
        r.epsilon_free(),
        r.start == 0,
        forall|j: usize, k: int|
            (j as int) < keys.len() && 0 <= k < r.edges(j).len() ==> edge_sound(nfa, keys, true, j as int, #[trigger] r.edges(j)[k]),
        forall|j: usize, d: char|
            (j as int) < keys.len() && nfa.alphabet().contains(d) ==> #[trigger] row_complete(nfa, keys, j as int, r.edges(j), d),
        forall|x: usize| #[trigger] r.accept@.contains(x) <==> ((x as int) < keys.len() && composite_accepts(nfa, keys, x as int)),
    ensures
        r.accepts(w) == nfa.accepts(w),
{
    lemma_elim_sim(nfa, r, keys, w);
    if nfa.sim(w) != Set::<usize>::empty() {
        let t = choose|t: usize| (t as int) < keys.len() && r.sim(w) == set![t] && key_set(keys, t as int) == nfa.sim(w);
        if nfa.accepts(w) {
            let a = choose|a: usize| nfa.sim(w).contains(a) && nfa.accept_set().contains(a);
            assert(composite_accepts(nfa, keys, t as int));
            assert(r.accept@.contains(t));
            assert(r.sim(w).contains(t));
            assert(r.accept_set().contains(t));
        }
        if r.accepts(w) {
            let a = choose|a: usize| r.sim(w).contains(a) && r.accept_set().contains(a);
            assert(a == t);
            assert(r.accept@.contains(t));
            let b = choose|b: usize| key_set(keys, t as int).contains(b) && nfa.accept_set().contains(b);
            assert(nfa.sim(w).contains(b));
        }
    } else {
        if r.accepts(w) {
            let a = choose|a: usize| r.sim(w).contains(a) && r.accept_set().contains(a);
        }
        if nfa.accepts(w) {
            let a = choose|a: usize| nfa.sim(w).contains(a) && nfa.accept_set().contains(a);
        }
    }
}

/// `r` is the automaton over the distinct closures `sets` of `nfa`: state `i`
/// stands for `sets[i]`, state 0 for the closure of the start; for every
/// character whose move out of `sets[i]` is not empty, `i` has exactly one
/// edge, into the state of the closure of that move, and no other edges; `i`
/// accepts when `sets[i]` meets the accept set.
pub open spec fn closure_automaton(nfa: &NFA, r: &NFA, sets: Seq<Set<usize>>) -> bool {
    &&& sets.len() == r.n()
    &&& sets[0] == nfa.closure(set![nfa.start])
    &&& forall|i: int, j: int| 0 <= i < sets.len() && 0 <= j < sets.len() && i != j ==> sets[i] != sets[j]
    &&& forall|i: usize, k: int| (i as int) < sets.len() && 0 <= k < r.edges(i).len() ==> {
        let e = #[trigger] r.edges(i)[k];
        &&& e.0 is Char
        &&& (e.1 as int) < sets.len()
        &&& nfa.step(sets[i as int], label_char(e.0)) != Set::<usize>::empty()
        &&& sets[e.1 as int] == nfa.closure(nfa.step(sets[i as int], label_char(e.0)))
    }
    &&& forall|i: usize, c: char| (i as int) < sets.len() && #[trigger] nfa.step(sets[i as int], c) != Set::<usize>::empty()
        ==> exists|k: int| 0 <= k < r.edges(i).len() && #[trigger] r.edges(i)[k].0 == TransitionLabel::Char(c)
    &&& forall|i: usize, k1: int, k2: int|
        0 <= k1 < r.edges(i).len() && 0 <= k2 < r.edges(i).len() && k1 != k2 ==> #[trigger] r.edges(i)[k1].0 != #[trigger] r.edges(i)[k2].0
    &&& forall|x: usize| #[trigger] r.accept_set().contains(x) <==> ((x as int) < sets.len() && exists|a: usize|
        sets[x as int].contains(a) && nfa.accept_set().contains(a))
    &&& forall|k: usize| 1 <= k < sets.len() ==> #[trigger] entered_from_before(r, k)
    &&& forall|k1: usize, k2: usize| 1 <= k1 < k2 < sets.len() ==> #[trigger] entered_in_order(r, k1, k2)
}

/// Breadth-first numbering: every edge into `k2` comes, in the order of
/// (state, character), after some edge into `k1`.
pub open spec fn entered_in_order(r: &NFA, k1: usize, k2: usize) -> bool {
    forall|i: usize, q: int| 0 <= q < r.edges(i).len() && (#[trigger] r.edges(i)[q]).1 == k2 ==> exists|i2: usize, q2: int|
        0 <= q2 < r.edges(i2).len() && r.edges(i2)[q2].1 == k1 && crate::subset::pair_lt(
            i2 as int,
            label_char(r.edges(i2)[q2].0),
            i as int,
            label_char(r.edges(i)[q].0),
        )
}

/// Some edge of a state numbered before `k` leads into `k`; so every state is
/// reached from state 0.
pub open spec fn entered_from_before(r: &NFA, k: usize) -> bool {
    exists|i: usize, q: int| i < k && 0 <= q < r.edges(i).len() && r.edges(i)[q].1 == k
}

/// Removes silent edges. Each state of the result stands for one distinct
/// epsilon-closure of `nfa`, found breadth-first from the closure of the
/// start state (state 0); it reads a character into the closure of the move
/// on that character, and accepts when its closure meets the accept set of
/// `nfa`. The result accepts exactly the words `nfa` accepts.
#[verifier::spinoff_prover]
pub fn remove_epsilon(nfa: &NFA) -> (r: NFA)
    requires
        nfa.wf(),
    ensures
        r.wf(),
        r.epsilon_free(),
        r.start == 0,
        forall|w: Seq<char>| #[trigger] r.accepts(w) == nfa.accepts(w),
        exists|sets: Seq<Set<usize>>| closure_automaton(nfa, &r, sets),
        forall|p: int, q: int| 0 <= p < q < r.accept@.len() ==> r.accept@[p] < r.accept@[q],
{
    let n = nfa.transitions.len();
    let symbols = collect_symbols(nfa);
    let start_closure = epsilon_closure_of_state(nfa, nfa.start);
    proof {
        lemma_closure_below(nfa, set![nfa.start]);
    }
    let mut keys: Vec<Vec<bool>> = Vec::new();
    let start_key = bits_of(&start_closure, n);
    keys.push(start_key);
    assert(key_set(keys@, 0) =~= initial(nfa, true));
    let mut table: HashMap<StateID, Vec<(TransitionLabel, StateID)>> = HashMap::new();
    let mut head: usize = 0;
    proof {
        lemma_pow2_positive(n as nat);
        crate::subset::lemma_search_start(nfa, keys@, true, symbols@);
    }
    while head < keys.len()
        invariant
            nfa.wf(),
            n as int == nfa.n(),
            symbols@.no_duplicates(),
            symbols@.to_set() == nfa.alphabet(),
            keys_ok(nfa, keys@, true),
            keys.len() <= pow2(n as nat),
            head <= keys.len(),
            crate::subset::increasing(symbols@),
            crate::subset::search_ok(nfa, keys@, true, symbols@, head as int, 0),
            forall|s: usize| #[trigger] table@.contains_key(s) <==> s < head,
            forall|j: usize, k: int|
                j < head && 0 <= k < table@[j]@.len() ==> edge_sound(nfa, keys@, true, j as int, #[trigger] table@[j]@[k]),
            forall|j: usize, d: char|
                j < head && nfa.alphabet().contains(d) ==> #[trigger] row_complete(nfa, keys@, j as int, table@[j]@, d),
            forall|j: usize, k1: int, k2: int|
                j < head && 0 <= k1 < table@[j]@.len() && 0 <= k2 < table@[j]@.len() && k1 != k2
                    ==> #[trigger] table@[j]@[k1].0 != #[trigger] table@[j]@[k2].0,
        decreases pow2(n as nat) - head,
    {
        let ghost old_keys = keys@;
        let ghost old_table = table@;
        let row = expand(nfa, &symbols, &mut keys, head, true);
        table.insert(head, row);
        proof {
            lemma_keys_extend(nfa, old_keys, keys@, true);
            assert forall|j: usize, q: int|
                j < head + 1 && 0 <= q < table@[j]@.len() implies edge_sound(nfa, keys@, true, j as int, #[trigger] table@[j]@[q]) by {
                if j < head {
                    assert(table@[j] == old_table[j]);
                    assert(edge_sound(nfa, old_keys, true, j as int, old_table[j]@[q]));
                }
            }
            assert forall|j: usize, d: char|
                j < head + 1 && nfa.alphabet().contains(d) implies #[trigger] row_complete(nfa, keys@, j as int, table@[j]@, d) by {
                if j < head {
                    assert(table@[j] == old_table[j]);
                    assert(row_complete(nfa, old_keys, j as int, old_table[j]@, d));
                }
            }
            assert forall|j: usize, k1: int, k2: int|
                j < head + 1 && 0 <= k1 < table@[j]@.len() && 0 <= k2 < table@[j]@.len() && k1 != k2
                    implies #[trigger] table@[j]@[k1].0 != #[trigger] table@[j]@[k2].0 by {
                if j < head {
                    assert(table@[j] == old_table[j]);
                }
            }
        }
        head = head + 1;
    }
    let mut accepting: Vec<StateID> = Vec::new();
    for i in 0..keys.len()
        invariant
            forall|x: usize| #[trigger] accepting@.contains(x) <==> (x < i && composite_accepts(nfa, keys@, x as int)),
            forall|p: int, q: int| 0 <= p < q < accepting@.len() ==> accepting@[p] < accepting@[q],
            forall|p: int| 0 <= p < accepting@.len() ==> accepting@[p] < i,
    {
        let ghost prev = accepting@;
        let meets = meets_accept(&keys[i], &nfa.accept);
        proof {
            if meets {
                let a = choose|a: usize| bits_set(keys@[i as int]@).contains(a) && nfa.accept@.contains(a);
                assert(nfa.accept_set().contains(a));
                assert(key_set(keys@, i as int).contains(a));
            }
            if composite_accepts(nfa, keys@, i as int) {
                let a = choose|a: usize| key_set(keys@, i as int).contains(a) && nfa.accept_set().contains(a);
                assert(nfa.accept@.contains(a));
            }
        }
        if meets {
            accepting.push(i);
            proof {
                crate::bounds::lemma_push_facts(prev, i);
            }
        }
        assert forall|x: usize| #[trigger] accepting@.contains(x) <==> (x < i + 1 && composite_accepts(nfa, keys@, x as int)) by {
            if accepting@.contains(x) {
                let p = choose|p: int| 0 <= p < accepting@.len() && accepting@[p] == x;
                if p < prev.len() {
                    assert(prev[p] == x);
                    assert(prev.contains(x));
                } else {
                    assert(meets && x == i);
                }
            }
            if x < i + 1 && composite_accepts(nfa, keys@, x as int) {
                if x < i {
                    assert(prev.contains(x));
                    let p = choose|p: int| 0 <= p < prev.len() && prev[p] == x;
                    assert(accepting@[p] == x);
                } else {
                    assert(meets);
                    assert(accepting@[prev.len() as int] == x);
                }
            }
        }
    }
    let r = NFA { start: 0, accept: accepting, transitions: table };
    proof {
        lemma_dense_len(table@, keys.len() as nat);
        assert(r.dense());
        assert forall|j: usize, k: int| 0 <= k < r.edges(j).len() implies (#[trigger] r.edges(j)[k]).1 < r.n()
            && r.edges(j)[k].0 != TransitionLabel::Epsilon by {
            assert(edge_sound(nfa, keys@, true, j as int, r.edges(j)[k]));
        }
        assert(r.closed());
        assert(r.epsilon_free());
        assert forall|w: Seq<char>| #[trigger] r.accepts(w) == nfa.accepts(w) by {
            lemma_elim_accepts(nfa, &r, keys@, w);
        }
        let sets = Seq::new(keys@.len(), |i: int| key_set(keys@, i));
        assert forall|i: int, j: int| 0 <= i < sets.len() && 0 <= j < sets.len() && i != j implies sets[i] != sets[j] by {
            if sets[i] == sets[j] {
                lemma_key_unique(nfa, keys@, true, i, j);
            }
        }
        assert forall|i: usize, k: int| (i as int) < sets.len() && 0 <= k < r.edges(i).len() implies {
            let e = #[trigger] r.edges(i)[k];
            &&& e.0 is Char
            &&& (e.1 as int) < sets.len()
            &&& nfa.step(sets[i as int], label_char(e.0)) != Set::<usize>::empty()
            &&& sets[e.1 as int] == nfa.closure(nfa.step(sets[i as int], label_char(e.0)))
        } by {
            assert(edge_sound(nfa, keys@, true, i as int, r.edges(i)[k]));
        }
        assert forall|i: usize, c: char| (i as int) < sets.len() && #[trigger] nfa.step(sets[i as int], c) != Set::<usize>::empty()
            implies exists|k: int| 0 <= k < r.edges(i).len() && #[trigger] r.edges(i)[k].0 == TransitionLabel::Char(c) by {
            if !nfa.alphabet().contains(c) {
                crate::nfa::lemma_step_outside_alphabet(nfa, sets[i as int], c);
            }
            assert(row_complete(nfa, keys@, i as int, r.edges(i), c));
        }
        assert forall|x: usize| #[trigger] r.accept_set().contains(x) <==> ((x as int) < sets.len() && exists|a: usize|
            sets[x as int].contains(a) && nfa.accept_set().contains(a)) by {
            if (x as int) < sets.len() {
                assert(composite_accepts(nfa, keys@, x as int) == exists|a: usize| sets[x as int].contains(a) && nfa.accept_set().contains(a));
            }
        }
        assert forall|k: usize| 1 <= k < sets.len() implies #[trigger] entered_from_before(&r, k) by {
            assert(crate::subset::discovered(nfa, keys@, true, k as int));
            let (i, c) = choose|i: int, c: char|
                0 <= i < k && nfa.step(key_set(keys@, i), c) != Set::<usize>::empty() && key_set(keys@, k as int)
                    == crate::subset::successor(nfa, key_set(keys@, i), c, true);
            let iu = i as usize;
            if !nfa.alphabet().contains(c) {
                crate::nfa::lemma_step_outside_alphabet(nfa, key_set(keys@, i), c);
            }
            assert(row_complete(nfa, keys@, i, r.edges(iu), c));
            let q = choose|q: int| 0 <= q < r.edges(iu).len() && #[trigger] r.edges(iu)[q].0 == TransitionLabel::Char(c);
            assert(edge_sound(nfa, keys@, true, i, r.edges(iu)[q]));
            lemma_key_unique(nfa, keys@, true, r.edges(iu)[q].1 as int, k as int);
            assert(iu < k && 0 <= q < r.edges(iu).len() && r.edges(iu)[q].1 == k);
        }
        assert forall|k1: usize, k2: usize| 1 <= k1 < k2 < sets.len() implies #[trigger] entered_in_order(&r, k1, k2) by {
            assert forall|i: usize, q: int| 0 <= q < r.edges(i).len() && (#[trigger] r.edges(i)[q]).1 == k2 implies exists|i2: usize, q2: int|
                0 <= q2 < r.edges(i2).len() && r.edges(i2)[q2].1 == k1 && crate::subset::pair_lt(
                    i2 as int,
                    label_char(r.edges(i2)[q2].0),
                    i as int,
                    label_char(r.edges(i)[q].0),
                ) by {
                assert(r.transitions@.contains_key(i));
                assert(edge_sound(nfa, keys@, true, i as int, r.edges(i)[q]));
                let c = label_char(r.edges(i)[q].0);
                assert(crate::subset::hits(nfa, keys@, true, i as int, c, k2 as int));
                assert(crate::subset::numbered_in_order(nfa, keys@, true));
                assert(crate::subset::hit_before(nfa, keys@, true, k1 as int, i as int, c));
                let (i2, c2) = choose|i2: int, c2: char| crate::subset::pair_lt(i2, c2, i as int, c)
                    && crate::subset::hits(nfa, keys@, true, i2, c2, k1 as int);
                let i2u = i2 as usize;
                if !nfa.alphabet().contains(c2) {
                    crate::nfa::lemma_step_outside_alphabet(nfa, key_set(keys@, i2), c2);
                }
                assert(row_complete(nfa, keys@, i2, r.edges(i2u), c2));
                let q2 = choose|q2: int| 0 <= q2 < r.edges(i2u).len() && #[trigger] r.edges(i2u)[q2].0 == TransitionLabel::Char(c2);
                assert(edge_sound(nfa, keys@, true, i2, r.edges(i2u)[q2]));
                lemma_key_unique(nfa, keys@, true, r.edges(i2u)[q2].1 as int, k1 as int);
                assert(0 <= q2 < r.edges(i2u).len() && r.edges(i2u)[q2].1 == k1 && crate::subset::pair_lt(
                    i2u as int,
                    label_char(r.edges(i2u)[q2].0),
                    i as int,
                    label_char(r.edges(i)[q].0),
                ));
            }
        }
        assert(closure_automaton(nfa, &r, sets));
    }
    r
}

} // verus!
