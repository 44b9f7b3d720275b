//! Canonical keys for sets of states: a set of states below `n` is held as
//! its characteristic bit vector, so equal sets have equal keys.
use crate::bounds::{lemma_distinct_bitvecs, pow2};
use crate::epsilon_elimination::{epsilon_closure_of_set, move_on_char};
use crate::nfa::{lemma_closure_below, StateID, TransitionLabel, NFA};
use std::collections::HashSet;
use vstd::prelude::*;

verus! {

broadcast use vstd::std_specs::hash::group_hash_axioms;

/// The set of states a bit vector marks.
pub open spec fn bits_set(b: Seq<bool>) -> Set<usize> {
    Set::new(|s: usize| (s as int) < b.len() && b[s as int])
}

/// The characteristic vector of `set` over `0..n`.
pub fn bits_of(set: &HashSet<StateID>, n: usize) -> (b: Vec<bool>)
    ensures
        b@.len() == n,
        forall|s: int| 0 <= s < n ==> b@[s] == set@.contains(s as usize),
{
    let mut b: Vec<bool> = Vec::new();
    for s in 0..n
        invariant
            b@.len() == s,
            forall|x: int| 0 <= x < s ==> b@[x] == set@.contains(x as usize),
    {
        b.push(set.contains(&s));
    }
    b
}

/// The set a bit vector marks, as a hash set.
pub fn set_of_bits(b: &Vec<bool>) -> (r: HashSet<StateID>)
    ensures
        r@ == bits_set(b@),
{
    let mut r: HashSet<StateID> = HashSet::new();
    for s in 0..b.len()
        invariant
            forall|x: usize| #[trigger] r@.contains(x) <==> (x < s && b@[x as int]),
    {
        if b[s] {
            r.insert(s);
        }
    }
    assert(r@ =~= bits_set(b@));
    r
}

/// Position of `key` among `keys`, if it is there.
pub fn find_key(keys: &Vec<Vec<bool>>, key: &Vec<bool>) -> (r: Option<usize>)
    ensures
        match r {
            Some(i) => i < keys.len() && keys@[i as int]@ == key@,
            None => forall|i: int| 0 <= i < keys.len() ==> keys@[i]@ != key@,
        },
{
    for i in 0..keys.len()
        invariant
            forall|k: int| 0 <= k < i ==> keys@[k]@ != key@,
    {
        let cand = &keys[i];
        if cand.len() == key.len() {
            let mut same = true;
            let mut j: usize = 0;
            while j < key.len()
                invariant
                    cand@.len() == key@.len(),
                    j <= key.len(),
                    same <==> forall|x: int| 0 <= x < j ==> cand@[x] == key@[x],
                decreases key.len() - j,
            {
                if cand[j] != key[j] {
                    same = false;
                }
                j = j + 1;
            }
            if same {
                assert(cand@ =~= key@);
                return Some(i);
            }
        }
    }
    None
}

/// The characters that label some edge, each once, in increasing order.
pub fn collect_symbols(nfa: &NFA) -> (syms: Vec<char>)
    requires
        nfa.dense(),
    ensures
        syms@.no_duplicates(),
        increasing(syms@),
        syms@.to_set() == nfa.alphabet(),
{
    let n = nfa.transitions.len();
    let mut syms: Vec<char> = Vec::new();
    for s in 0..n
        invariant
            nfa.dense(),
            n as int == nfa.n(),
            syms@.no_duplicates(),
            increasing(syms@),
            forall|c: char| #[trigger] syms@.contains(c) <==> exists|x: usize, i: int|
                x < s && 0 <= i < nfa.edges(x).len() && #[trigger] nfa.edges(x)[i].0 == TransitionLabel::Char(c),
    {
        let edges = nfa.transitions.get(&s).unwrap();
        assert(edges@ == nfa.edges(s));
        let ghost pre = syms@;
        for j in 0..edges.len()
            invariant
                edges@ == nfa.edges(s),
                syms@.no_duplicates(),
                increasing(syms@),
                forall|c: char| #[trigger] syms@.contains(c) <==> (pre.contains(c) || exists|i: int|
                    0 <= i < j && #[trigger] edges@[i].0 == TransitionLabel::Char(c)),
        {
            if let TransitionLabel::Char(c) = edges[j].0 {
                insert_sorted(&mut syms, c);
            }
        }
        assert forall|c: char| #[trigger] syms@.contains(c) <==> exists|x: usize, i: int|
            x < s + 1 && 0 <= i < nfa.edges(x).len() && #[trigger] nfa.edges(x)[i].0 == TransitionLabel::Char(c) by {
            if syms@.contains(c) && !pre.contains(c) {
                let i = choose|i: int| 0 <= i < edges.len() && #[trigger] edges@[i].0 == TransitionLabel::Char(c);
                assert(nfa.edges(s)[i].0 == TransitionLabel::Char(c));
            }
            if exists|x: usize, i: int|
                x < s + 1 && 0 <= i < nfa.edges(x).len() && #[trigger] nfa.edges(x)[i].0 == TransitionLabel::Char(c) {
                let (x, i) = choose|x: usize, i: int|
                    x < s + 1 && 0 <= i < nfa.edges(x).len() && #[trigger] nfa.edges(x)[i].0 == TransitionLabel::Char(c);
                if x == s {
                    assert(edges@[i].0 == TransitionLabel::Char(c));
                } else {
                    assert(pre.contains(c));
                }
            }
        }
    }
    assert(syms@.to_set() =~= nfa.alphabet());
    syms
}

/// The characters of `s` increase strictly.
pub open spec fn increasing(s: Seq<char>) -> bool {
    forall|a: int, b: int| 0 <= a < b < s.len() ==> (s[a] as int) < (s[b] as int)
}

/// Adds `c` to a list kept in increasing order, unless it is there already.
fn insert_sorted(syms: &mut Vec<char>, c: char)
    requires
        old(syms)@.no_duplicates(),
        increasing(old(syms)@),
    ensures
        final(syms)@.no_duplicates(),
        increasing(final(syms)@),
        forall|d: char| #[trigger] final(syms)@.contains(d) <==> (old(syms)@.contains(d) || d == c),
{
    let mut k: usize = 0;
    let mut found = false;
    while k < syms.len()
        invariant
            syms@ == old(syms)@,
            k <= syms.len(),
            found <==> exists|x: int| 0 <= x < k && syms@[x] == c,
        decreases syms.len() - k,
    {
        if syms[k] == c {
            found = true;
        }
        k = k + 1;
    }
    if found {
        return;
    }
    let mut pos: usize = 0;
    while pos < syms.len() && syms[pos] < c
        invariant
            syms@ == old(syms)@,
            pos <= syms.len(),
            forall|x: int| 0 <= x < pos ==> (syms@[x] as int) < (c as int),
        decreases syms.len() - pos,
    {
        pos = pos + 1;
    }
    proof {
        if pos < old(syms)@.len() {
            assert(old(syms)@[pos as int] != c);
            assert((old(syms)@[pos as int] as int) > (c as int));
        }
    }
    syms.insert(pos, c);
    assert forall|i: int, j: int| 0 <= i < j < syms.len() implies (syms@[i] as int) < (syms@[j] as int) by {
        let o = old(syms)@;
        let i0 = if i < pos { i } else { i - 1 };
        let j0 = if j < pos { j } else { j - 1 };
        if i != pos && j != pos {
            assert(syms@[i] == o[i0] && syms@[j] == o[j0]);
        } else if i == pos {
            assert(syms@[j] == o[j0]);
            if j0 > pos {
                assert((o[pos as int] as int) < (o[j0] as int));
            }
        } else {
            assert(syms@[i] == o[i0]);
        }
    }
    assert forall|i: int, j: int| 0 <= i < syms.len() && 0 <= j < syms.len() && i != j implies syms@[i] != syms@[j] by {
        let o = old(syms)@;
        if i != pos && j != pos {
            let i0 = if i < pos { i } else { i - 1 };
            let j0 = if j < pos { j } else { j - 1 };
            assert(syms@[i] == o[i0] && syms@[j] == o[j0]);
        } else if i == pos {
            let j0 = if j < pos { j } else { j - 1 };
            assert(syms@[j] == o[j0]);
        } else {
            let i0 = if i < pos { i } else { i - 1 };
            assert(syms@[i] == o[i0]);
        }
    }
    assert forall|d: char| #[trigger] syms@.contains(d) <==> (old(syms)@.contains(d) || d == c) by {
        if old(syms)@.contains(d) {
            let k = choose|k: int| 0 <= k < old(syms)@.len() && old(syms)@[k] == d;
            if k < pos {
                assert(syms@[k] == d);
            } else {
                assert(syms@[k + 1] == d);
            }
        }
        if d == c {
            assert(syms@[pos as int] == c);
        }
    }
}

/// The character of a character label.
pub open spec fn label_char(l: TransitionLabel) -> char {
    match l {
        TransitionLabel::Char(c) => c,
        TransitionLabel::Epsilon => ' ',
    }
}

/// The set of source states that composite state `i` stands for.
pub open spec fn key_set(keys: Seq<Vec<bool>>, i: int) -> Set<usize> {
    bits_set(keys[i]@)
}

/// The set a composite state moves to on `c`: the `c`-move of its set,
/// closed under silent edges when `close` holds.
pub open spec fn successor(nfa: &NFA, set: Set<usize>, c: char, close: bool) -> Set<usize> {
    if close {
        nfa.closure(nfa.step(set, c))
    } else {
        nfa.step(set, c)
    }
}

/// An edge out of composite state `i` reads `c` into the composite state
/// for the successor of `i`'s set on `c`, whose move is not empty.
pub open spec fn edge_sound(nfa: &NFA, keys: Seq<Vec<bool>>, close: bool, i: int, e: (TransitionLabel, usize)) -> bool {
    &&& e.0 is Char
    &&& (e.1 as int) < keys.len()
    &&& nfa.step(key_set(keys, i), label_char(e.0)) != Set::<usize>::empty()
    &&& key_set(keys, e.1 as int) == successor(nfa, key_set(keys, i), label_char(e.0), close)
}

/// Every character with a non-empty move out of `i` has an edge in `row`.
pub open spec fn row_complete(nfa: &NFA, keys: Seq<Vec<bool>>, i: int, row: Seq<(TransitionLabel, usize)>, c: char) -> bool {
    nfa.step(key_set(keys, i), c) != Set::<usize>::empty() ==> exists|k: int|
        0 <= k < row.len() && #[trigger] row[k].0 == TransitionLabel::Char(c)
}

/// The set composite state 0 stands for.
pub open spec fn initial(nfa: &NFA, close: bool) -> Set<usize> {
    if close {
        nfa.closure(set![nfa.start])
    } else {
        set![nfa.start]
    }
}

/// The composite-state table: distinct keys of length `n`, state 0 the initial set.
pub open spec fn keys_ok(nfa: &NFA, keys: Seq<Vec<bool>>, close: bool) -> bool {
    &&& keys.len() >= 1
    &&& nfa.n() <= usize::MAX
    &&& forall|i: int| 0 <= i < keys.len() ==> (#[trigger] keys[i])@.len() == nfa.n()
    &&& forall|i: int, j: int| 0 <= i < keys.len() && 0 <= j < keys.len() && i != j ==> keys[i]@ != keys[j]@
    &&& key_set(keys, 0) == initial(nfa, close)
    &&& forall|k: int| 1 <= k < keys.len() ==> #[trigger] discovered(nfa, keys, close, k)
}

/// Composite state `k` is the successor, on some character with a non-empty
/// move, of a composite state numbered before it.
pub open spec fn discovered(nfa: &NFA, keys: Seq<Vec<bool>>, close: bool, k: int) -> bool {
    exists|i: int, c: char|
        0 <= i < k && nfa.step(key_set(keys, i), c) != Set::<usize>::empty() && key_set(keys, k) == successor(
            nfa,
            key_set(keys, i),
            c,
            close,
        )
}

/// The `c`-move out of composite state `i` is not empty and leads to composite state `k`.
pub open spec fn hits(nfa: &NFA, keys: Seq<Vec<bool>>, close: bool, i: int, c: char, k: int) -> bool {
    &&& 0 <= i < keys.len()
    &&& 0 <= k < keys.len()
    &&& nfa.step(key_set(keys, i), c) != Set::<usize>::empty()
    &&& key_set(keys, k) == successor(nfa, key_set(keys, i), c, close)
}

/// The pair `(i1, c1)` comes before `(i2, c2)`: by state, then by character.
pub open spec fn pair_lt(i1: int, c1: char, i2: int, c2: char) -> bool {
    i1 < i2 || (i1 == i2 && (c1 as int) < (c2 as int))
}

/// The pair `(i, c)` was handled: states before `h`, and the first `kk` symbols of `h`.
pub open spec fn handled(symbols: Seq<char>, h: int, kk: int, i: int, c: char) -> bool {
    i < h || (i == h && exists|q: int| 0 <= q < kk && symbols[q] == c)
}

/// Some handled pair leads to `k`.
pub open spec fn found(nfa: &NFA, keys: Seq<Vec<bool>>, close: bool, symbols: Seq<char>, h: int, kk: int, k: int) -> bool {
    exists|i: int, c: char| handled(symbols, h, kk, i, c) && hits(nfa, keys, close, i, c, k)
}

/// Some pair before `(i, c)` leads to `k1`.
pub open spec fn hit_before(nfa: &NFA, keys: Seq<Vec<bool>>, close: bool, k1: int, i: int, c: char) -> bool {
    exists|i2: int, c2: char| pair_lt(i2, c2, i, c) && hits(nfa, keys, close, i2, c2, k1)
}

/// Breadth-first numbering: composite states are numbered in the order in
/// which the pairs (state, character) first lead to them.
pub open spec fn numbered_in_order(nfa: &NFA, keys: Seq<Vec<bool>>, close: bool) -> bool {
    forall|k1: int, k2: int, i: int, c: char|
        #![trigger hits(nfa, keys, close, i, c, k2), hit_before(nfa, keys, close, k1, i, c)]
        1 <= k1 < k2 && hits(nfa, keys, close, i, c, k2) ==> hit_before(nfa, keys, close, k1, i, c)
}

/// The search so far: every composite state but 0 is found by a handled
/// pair, every handled pair with a non-empty move leads to a composite state,
/// and the numbering is in order.
pub open spec fn search_ok(nfa: &NFA, keys: Seq<Vec<bool>>, close: bool, symbols: Seq<char>, h: int, kk: int) -> bool {
    &&& forall|k: int| 1 <= k < keys.len() ==> #[trigger] found(nfa, keys, close, symbols, h, kk, k)
    &&& forall|i: int, c: char| #[trigger] handled(symbols, h, kk, i, c) && 0 <= i < keys.len()
        && nfa.step(key_set(keys, i), c) != Set::<usize>::empty() ==> exists|k: int| hits(nfa, keys, close, i, c, k)
    &&& numbered_in_order(nfa, keys, close)
}

proof fn lemma_hits_extend(nfa: &NFA, k0: Seq<Vec<bool>>, keys: Seq<Vec<bool>>, close: bool)
    requires
        k0.len() <= keys.len(),
        forall|i: int| 0 <= i < k0.len() ==> keys[i] == k0[i],
    ensures
        forall|i: int, c: char, k: int| #[trigger] hits(nfa, k0, close, i, c, k) ==> hits(nfa, keys, close, i, c, k),
        forall|i: int, c: char, k: int|
            #[trigger] hits(nfa, keys, close, i, c, k) && i < k0.len() && k < k0.len() ==> hits(nfa, k0, close, i, c, k),
{
    assert forall|i: int, c: char, k: int| #[trigger] hits(nfa, k0, close, i, c, k) implies hits(nfa, keys, close, i, c, k) by {
        assert(keys[i] == k0[i] && keys[k] == k0[k]);
    }
    assert forall|i: int, c: char, k: int|
        #[trigger] hits(nfa, keys, close, i, c, k) && i < k0.len() && k < k0.len() implies hits(nfa, k0, close, i, c, k) by {
        assert(keys[i] == k0[i] && keys[k] == k0[k]);
    }
}

/// A symbol of the alphabet not among the first `kk` comes after all of them.
proof fn lemma_later_symbol(nfa: &NFA, symbols: Seq<char>, kk: int, c1: char, c: char)
    requires
        increasing(symbols),
        symbols.to_set() == nfa.alphabet(),
        nfa.alphabet().contains(c),
        !(exists|q: int| 0 <= q < kk && symbols[q] == c),
        exists|q: int| 0 <= q < kk && symbols[q] == c1,
    ensures
        (c1 as int) < (c as int),
{
    assert(symbols.to_set().contains(c));
    let q2 = choose|q: int| 0 <= q < symbols.len() && symbols[q] == c;
    let q1 = choose|q: int| 0 <= q < kk && symbols[q] == c1;
    assert(q1 < q2);
}

/// One more pair handled, leading to composite state `tid` (new or old).
proof fn lemma_search_step(
    nfa: &NFA,
    k0: Seq<Vec<bool>>,
    keys: Seq<Vec<bool>>,
    close: bool,
    symbols: Seq<char>,
    head: int,
    kk: int,
    tid: int,
)
    requires
        search_ok(nfa, k0, close, symbols, head, kk),
        keys_ok(nfa, keys, close),
        increasing(symbols),
        symbols.to_set() == nfa.alphabet(),
        0 <= kk < symbols.len(),
        0 <= head < k0.len(),
        k0.len() <= keys.len() <= k0.len() + 1,
        forall|i: int| 0 <= i < k0.len() ==> keys[i] == k0[i],
        keys.len() == k0.len() + 1 ==> tid == k0.len(),
        hits(nfa, keys, close, head, symbols[kk], tid),
    ensures
        search_ok(nfa, keys, close, symbols, head, kk + 1),
{
    let c = symbols[kk];
    lemma_hits_extend(nfa, k0, keys, close);
    assert(handled(symbols, head, kk + 1, head, c));
    assert forall|k: int| 1 <= k < keys.len() implies #[trigger] found(nfa, keys, close, symbols, head, kk + 1, k) by {
        if k < k0.len() {
            assert(found(nfa, k0, close, symbols, head, kk, k));
            let (i, c1) = choose|i: int, c1: char| handled(symbols, head, kk, i, c1) && hits(nfa, k0, close, i, c1, k);
            assert(handled(symbols, head, kk + 1, i, c1));
            assert(hits(nfa, keys, close, i, c1, k));
        } else {
            assert(k == tid);
        }
    }
    assert forall|i: int, c2: char| #[trigger] handled(symbols, head, kk + 1, i, c2) && 0 <= i < keys.len()
        && nfa.step(key_set(keys, i), c2) != Set::<usize>::empty() implies exists|k: int| hits(nfa, keys, close, i, c2, k) by {
        if handled(symbols, head, kk, i, c2) {
            assert(keys[i] == k0[i]);
            let k = choose|k: int| hits(nfa, k0, close, i, c2, k);
            assert(hits(nfa, keys, close, i, c2, k));
        } else {
            let q = choose|q: int| 0 <= q < kk + 1 && symbols[q] == c2;
            assert(q == kk);
            assert(hits(nfa, keys, close, i, c2, tid));
        }
    }
    assert forall|k1: int, k2: int, i: int, c2: char|
        #![trigger hits(nfa, keys, close, i, c2, k2), hit_before(nfa, keys, close, k1, i, c2)]
        1 <= k1 < k2 && hits(nfa, keys, close, i, c2, k2) implies hit_before(nfa, keys, close, k1, i, c2) by {
        if i < k0.len() && k2 < k0.len() {
            assert(hits(nfa, k0, close, i, c2, k2));
            assert(hit_before(nfa, k0, close, k1, i, c2));
            let (i2, c3) = choose|i2: int, c3: char| pair_lt(i2, c3, i, c2) && hits(nfa, k0, close, i2, c3, k1);
            assert(hits(nfa, keys, close, i2, c3, k1));
        } else {
            if handled(symbols, head, kk, i, c2) {
                assert(keys[i] == k0[i]);
                let k = choose|k: int| hits(nfa, k0, close, i, c2, k);
                assert(hits(nfa, keys, close, i, c2, k));
                lemma_key_unique(nfa, keys, close, k, k2);
                assert(false);
            }
            assert(k1 < k0.len());
            assert(found(nfa, k0, close, symbols, head, kk, k1));
            let (i1, c1) = choose|i1: int, c1: char| handled(symbols, head, kk, i1, c1) && hits(nfa, k0, close, i1, c1, k1);
            if i == head && i1 == head {
                if !nfa.alphabet().contains(c2) {
                    crate::nfa::lemma_step_outside_alphabet(nfa, key_set(keys, i), c2);
                }
                lemma_later_symbol(nfa, symbols, kk, c1, c2);
            }
            assert(pair_lt(i1, c1, i, c2));
            assert(hits(nfa, keys, close, i1, c1, k1));
        }
    }
}

/// A handled pair whose move is empty changes nothing else.
proof fn lemma_search_skip(nfa: &NFA, keys: Seq<Vec<bool>>, close: bool, symbols: Seq<char>, head: int, kk: int)
    requires
        search_ok(nfa, keys, close, symbols, head, kk),
        0 <= kk < symbols.len(),
        nfa.step(key_set(keys, head), symbols[kk]) == Set::<usize>::empty(),
    ensures
        search_ok(nfa, keys, close, symbols, head, kk + 1),
{
    assert forall|k: int| 1 <= k < keys.len() implies #[trigger] found(nfa, keys, close, symbols, head, kk + 1, k) by {
        assert(found(nfa, keys, close, symbols, head, kk, k));
        let (i, c) = choose|i: int, c: char| handled(symbols, head, kk, i, c) && hits(nfa, keys, close, i, c, k);
        assert(handled(symbols, head, kk + 1, i, c));
    }
    assert forall|i: int, c: char| #[trigger] handled(symbols, head, kk + 1, i, c) && 0 <= i < keys.len()
        && nfa.step(key_set(keys, i), c) != Set::<usize>::empty() implies exists|k: int| hits(nfa, keys, close, i, c, k) by {
        if !handled(symbols, head, kk, i, c) {
            let q = choose|q: int| 0 <= q < kk + 1 && symbols[q] == c;
            assert(q == kk);
        }
    }
}

/// When every symbol of state `head` is handled, the search moves to the next state.
proof fn lemma_search_next(nfa: &NFA, keys: Seq<Vec<bool>>, close: bool, symbols: Seq<char>, head: int)
    requires
        search_ok(nfa, keys, close, symbols, head, symbols.len() as int),
        symbols.to_set() == nfa.alphabet(),
    ensures
        search_ok(nfa, keys, close, symbols, head + 1, 0),
{
    assert forall|k: int| 1 <= k < keys.len() implies #[trigger] found(nfa, keys, close, symbols, head + 1, 0, k) by {
        assert(found(nfa, keys, close, symbols, head, symbols.len() as int, k));
        let (i, c) = choose|i: int, c: char| handled(symbols, head, symbols.len() as int, i, c) && hits(nfa, keys, close, i, c, k);
        assert(handled(symbols, head + 1, 0, i, c));
    }
    assert forall|i: int, c: char| #[trigger] handled(symbols, head + 1, 0, i, c) && 0 <= i < keys.len()
        && nfa.step(key_set(keys, i), c) != Set::<usize>::empty() implies exists|k: int| hits(nfa, keys, close, i, c, k) by {
        if i == head {
            if !nfa.alphabet().contains(c) {
                crate::nfa::lemma_step_outside_alphabet(nfa, key_set(keys, i), c);
            }
            assert(symbols.to_set().contains(c));
            let q = choose|q: int| 0 <= q < symbols.len() && symbols[q] == c;
        }
        assert(handled(symbols, head, symbols.len() as int, i, c));
    }
}

/// The search at its start: one composite state, nothing handled.
pub proof fn lemma_search_start(nfa: &NFA, keys: Seq<Vec<bool>>, close: bool, symbols: Seq<char>)
    requires
        keys.len() == 1,
    ensures
        search_ok(nfa, keys, close, symbols, 0, 0),
{
}

proof fn lemma_discovered_extend(nfa: &NFA, old_keys: Seq<Vec<bool>>, keys: Seq<Vec<bool>>, close: bool)
    requires
        old_keys.len() <= keys.len(),
        forall|i: int| 0 <= i < old_keys.len() ==> keys[i] == old_keys[i],
        forall|k: int| 1 <= k < old_keys.len() ==> #[trigger] discovered(nfa, old_keys, close, k),
    ensures
        forall|k: int| 1 <= k < old_keys.len() ==> #[trigger] discovered(nfa, keys, close, k),
{
    assert forall|k: int| 1 <= k < old_keys.len() implies #[trigger] discovered(nfa, keys, close, k) by {
        assert(discovered(nfa, old_keys, close, k));
        let (i, c) = choose|i: int, c: char|
            0 <= i < k && nfa.step(key_set(old_keys, i), c) != Set::<usize>::empty() && key_set(old_keys, k)
                == successor(nfa, key_set(old_keys, i), c, close);
        assert(keys[i] == old_keys[i]);
        assert(keys[k] == old_keys[k]);
        assert(0 <= i < k && nfa.step(key_set(keys, i), c) != Set::<usize>::empty() && key_set(keys, k) == successor(
            nfa,
            key_set(keys, i),
            c,
            close,
        ));
    }
}

pub proof fn lemma_key_unique(nfa: &NFA, keys: Seq<Vec<bool>>, close: bool, i: int, j: int)
    requires
        keys_ok(nfa, keys, close),
        0 <= i < keys.len(),
        0 <= j < keys.len(),
        key_set(keys, i) == key_set(keys, j),
    ensures
        i == j,
{
    if i != j {
        assert(keys[i]@ =~= keys[j]@) by {
            assert forall|x: int| 0 <= x < keys[i]@.len() implies keys[i]@[x] == keys[j]@[x] by {
                assert(key_set(keys, i).contains(x as usize) == keys[i]@[x]);
                assert(key_set(keys, j).contains(x as usize) == keys[j]@[x]);
            }
        }
    }
}

/// Does the set that `key` marks meet the accept list?
pub fn meets_accept(key: &Vec<bool>, accept: &Vec<StateID>) -> (r: bool)
    ensures
        r == exists|a: usize| bits_set(key@).contains(a) && accept@.contains(a),
{
    let mut found = false;
    for k in 0..accept.len()
        invariant
            found == exists|p: int| 0 <= p < k && bits_set(key@).contains(#[trigger] accept@[p]),
    {
        let a = accept[k];
        if a < key.len() && key[a] {
            found = true;
        }
        assert(found == exists|p: int| 0 <= p < k + 1 && bits_set(key@).contains(#[trigger] accept@[p])) by {
            if bits_set(key@).contains(accept@[k as int]) {
                assert(a < key.len() && key@[a as int]);
            }
        }
    }
    proof {
        if found {
            let p = choose|p: int| 0 <= p < accept.len() && bits_set(key@).contains(#[trigger] accept@[p]);
            assert(accept@.contains(accept@[p]));
        }
        if exists|a: usize| bits_set(key@).contains(a) && accept@.contains(a) {
            let a = choose|a: usize| bits_set(key@).contains(a) && accept@.contains(a);
            let p = choose|p: int| 0 <= p < accept.len() && accept@[p] == a;
            assert(bits_set(key@).contains(accept@[p]));
        }
    }
    found
}

/// Keys of length `n`, pairwise distinct.
pub open spec fn distinct_keys(keys: Seq<Vec<bool>>, n: nat) -> bool {
    &&& forall|i: int| 0 <= i < keys.len() ==> (#[trigger] keys[i])@.len() == n
    &&& forall|i: int, j: int| 0 <= i < keys.len() && 0 <= j < keys.len() && i != j ==> keys[i]@ != keys[j]@
}

/// The id of `key` among `keys`, allocating the next id the first time a key is seen.
pub fn intern(keys: &mut Vec<Vec<bool>>, key: Vec<bool>, n: usize) -> (id: StateID)
    requires
        key@.len() == n,
        distinct_keys(old(keys)@, n as nat),
    ensures
        distinct_keys(final(keys)@, n as nat),
        final(keys).len() <= pow2(n as nat),
        old(keys).len() <= final(keys).len() <= old(keys).len() + 1,
        forall|i: int| 0 <= i < old(keys).len() ==> final(keys)@[i] == old(keys)@[i],
        id < final(keys).len(),
        final(keys)@[id as int]@ == key@,
        final(keys).len() == old(keys).len() + 1 ==> id == old(keys).len(),
{
    proof {
        lemma_distinct_bitvecs(keys@.map_values(|v: Vec<bool>| v@), n as nat);
    }
    match find_key(keys, &key) {
        Some(id) => id,
        None => {
            let id = keys.len();
            keys.push(key);
            proof {
                assert forall|i: int, j: int| 0 <= i < keys.len() && 0 <= j < keys.len() && i != j
                    implies keys@[i]@ != keys@[j]@ by {
                    if i < id && j < id {
                        assert(keys@[i] == old(keys)@[i] && keys@[j] == old(keys)@[j]);
                    } else if i < id {
                        assert(keys@[i] == old(keys)@[i]);
                    } else {
                        assert(keys@[j] == old(keys)@[j]);
                    }
                }
                assert forall|i: int| 0 <= i < keys.len() implies (#[trigger] keys@[i])@.len() == n by {
                    if i < id {
                        assert(keys@[i] == old(keys)@[i]);
                    }
                }
                lemma_distinct_bitvecs(keys@.map_values(|v: Vec<bool>| v@), n as nat);
            }
            id
        },
    }
}

/// The key of the successor of `cur` on `c`, or nothing when the move on `c` is empty.
pub fn target_key(nfa: &NFA, cur: &HashSet<StateID>, c: char, close: bool) -> (r: Option<Vec<bool>>)
    requires
        nfa.wf(),
        forall|x: usize| cur@.contains(x) ==> (x as int) < nfa.n(),
    ensures
        match r {
            None => nfa.step(cur@, c) == Set::<usize>::empty(),
            Some(b) => {
                &&& b@.len() == nfa.n()
                &&& nfa.step(cur@, c) != Set::<usize>::empty()
                &&& bits_set(b@) == successor(nfa, cur@, c, close)
            },
        },
{
    let moved = move_on_char(nfa, cur, c);
    if moved.is_empty() {
        None
    } else if close {
        let target = epsilon_closure_of_set(nfa, &moved);
        proof {
            lemma_closure_below(nfa, moved@);
        }
        let b = bits_of(&target, nfa.transitions.len());
        assert(bits_set(b@) =~= target@);
        Some(b)
    } else {
        let b = bits_of(&moved, nfa.transitions.len());
        assert(bits_set(b@) =~= moved@);
        Some(b)
    }
}

pub proof fn lemma_keys_extend(nfa: &NFA, old_keys: Seq<Vec<bool>>, keys: Seq<Vec<bool>>, close: bool)
    requires
        old_keys.len() <= keys.len(),
        forall|i: int| 0 <= i < old_keys.len() ==> keys[i] == old_keys[i],
    ensures
        forall|i: int| 0 <= i < old_keys.len() ==> #[trigger] key_set(keys, i) == key_set(old_keys, i),
        forall|i: int, e: (TransitionLabel, usize)|
            0 <= i < old_keys.len() && #[trigger] edge_sound(nfa, old_keys, close, i, e) ==> edge_sound(nfa, keys, close, i, e),
        forall|i: int, row: Seq<(TransitionLabel, usize)>, d: char|
            0 <= i < old_keys.len() && #[trigger] row_complete(nfa, old_keys, i, row, d) ==> row_complete(nfa, keys, i, row, d),
{
    assert forall|i: int| 0 <= i < old_keys.len() implies #[trigger] key_set(keys, i) == key_set(old_keys, i) by {
        assert(keys[i] == old_keys[i]);
    }
    assert forall|i: int, e: (TransitionLabel, usize)|
        0 <= i < old_keys.len() && #[trigger] edge_sound(nfa, old_keys, close, i, e) implies edge_sound(nfa, keys, close, i, e) by {
        assert(keys[i] == old_keys[i]);
        assert(keys[e.1 as int] == old_keys[e.1 as int]);
    }
    assert forall|i: int, row: Seq<(TransitionLabel, usize)>, d: char|
        0 <= i < old_keys.len() && #[trigger] row_complete(nfa, old_keys, i, row, d) implies row_complete(nfa, keys, i, row, d) by {
        assert(keys[i] == old_keys[i]);
    }
}

/// The row of composite state `head`: for each symbol with a non-empty move,
/// an edge into the composite state of its successor, allocated on first sight.
#[verifier::spinoff_prover]
#[verifier::rlimit(60)]
pub fn expand(nfa: &NFA, symbols: &Vec<char>, keys: &mut Vec<Vec<bool>>, head: usize, close: bool) -> (row: Vec<(TransitionLabel, StateID)>)
    requires
        nfa.wf(),
        symbols@.no_duplicates(),
        symbols@.to_set() == nfa.alphabet(),
        keys_ok(nfa, old(keys)@, close),
        old(keys).len() <= pow2(nfa.n()),
        head < old(keys).len(),
        increasing(symbols@),
        search_ok(nfa, old(keys)@, close, symbols@, head as int, 0),
    ensures
        keys_ok(nfa, final(keys)@, close),
        search_ok(nfa, final(keys)@, close, symbols@, head + 1, 0),
        final(keys).len() <= pow2(nfa.n()),
        old(keys).len() <= final(keys).len(),
        forall|i: int| 0 <= i < old(keys).len() ==> final(keys)@[i] == old(keys)@[i],
        forall|k: int| 0 <= k < row.len() ==> edge_sound(nfa, final(keys)@, close, head as int, #[trigger] row@[k]),
        forall|d: char| nfa.alphabet().contains(d) ==> #[trigger] row_complete(nfa, final(keys)@, head as int, row@, d),
        forall|k1: int, k2: int| 0 <= k1 < row.len() && 0 <= k2 < row.len() && k1 != k2 ==> row@[k1].0 != row@[k2].0,
{
    let n = nfa.transitions.len();
    let cur = set_of_bits(&keys[head]);
    let ghost cur_set = key_set(keys@, head as int);
    let mut row: Vec<(TransitionLabel, StateID)> = Vec::new();
    let ghost mut pos: Seq<int> = Seq::empty();
    for k in 0..symbols.len()
        invariant
            nfa.wf(),
            n as int == nfa.n(),
            symbols@.no_duplicates(),
            keys_ok(nfa, keys@, close),
            keys.len() <= pow2(n as nat),
            head < old(keys).len() <= keys.len(),
            forall|i: int| 0 <= i < old(keys).len() ==> keys@[i] == old(keys)@[i],
            cur@ == cur_set,
            cur_set == key_set(keys@, head as int),
            forall|x: usize| cur@.contains(x) ==> (x as int) < n,
            forall|kk: int| 0 <= kk < row.len() ==> edge_sound(nfa, keys@, close, head as int, #[trigger] row@[kk]),
            forall|kk: int| 0 <= kk < k ==> #[trigger] row_complete(nfa, keys@, head as int, row@, symbols@[kk]),
            pos.len() == row.len(),
            forall|kk: int| 0 <= kk < row.len() ==> 0 <= #[trigger] pos[kk] < k && row@[kk].0 == TransitionLabel::Char(symbols@[pos[kk]]),
            forall|k1: int, k2: int| 0 <= k1 < k2 < row.len() ==> pos[k1] < pos[k2],
            increasing(symbols@),
            symbols@.to_set() == nfa.alphabet(),
            search_ok(nfa, keys@, close, symbols@, head as int, k as int),
    {
        let c = symbols[k];
        match target_key(nfa, &cur, c, close) {
            None => {
                proof {
                    lemma_search_skip(nfa, keys@, close, symbols@, head as int, k as int);
                }
            },
            Some(tbits) => {
                let ghost k0 = keys@;
                let ghost r0 = row@;
                let ghost tb = tbits@;
                let tid = intern(keys, tbits, n);
                row.push((TransitionLabel::Char(c), tid));
                proof {
                    assert(keys@[head as int] == k0[head as int]);
                    assert(hits(nfa, keys@, close, head as int, symbols@[k as int], tid as int));
                    lemma_discovered_extend(nfa, k0, keys@, close);
                    assert forall|k: int| 1 <= k < keys@.len() implies #[trigger] discovered(nfa, keys@, close, k) by {
                        if k >= k0.len() {
                            assert(k == tid);
                            assert(keys@[head as int] == k0[head as int]);
                            assert(key_set(keys@, k) == bits_set(tb));
                            assert(0 <= head < k && nfa.step(key_set(keys@, head as int), c) != Set::<usize>::empty()
                                && key_set(keys@, k) == successor(nfa, key_set(keys@, head as int), c, close));
                        }
                    }
                    lemma_search_step(nfa, k0, keys@, close, symbols@, head as int, k as int, tid as int);
                    crate::bounds::lemma_push_facts(r0, (TransitionLabel::Char(c), tid));
                    lemma_keys_extend(nfa, k0, keys@, close);
                    assert(edge_sound(nfa, keys@, close, head as int, row@[r0.len() as int]));
                    assert forall|kk: int| 0 <= kk < row.len() implies edge_sound(nfa, keys@, close, head as int, #[trigger] row@[kk]) by {
                        if kk < r0.len() {
                            assert(row@[kk] == r0[kk]);
                            assert(edge_sound(nfa, k0, close, head as int, r0[kk]));
                        }
                    }
                    assert forall|kk: int| 0 <= kk < k + 1 implies #[trigger] row_complete(nfa, keys@, head as int, row@, symbols@[kk]) by {
                        if kk < k {
                            assert(row_complete(nfa, k0, head as int, r0, symbols@[kk]));
                            if nfa.step(key_set(keys@, head as int), symbols@[kk]) != Set::<usize>::empty() {
                                let q = choose|q: int| 0 <= q < r0.len() && #[trigger] r0[q].0 == TransitionLabel::Char(symbols@[kk]);
                                assert(row@[q] == r0[q]);
                            }
                        } else {
                            assert(row@[r0.len() as int].0 == TransitionLabel::Char(c));
                        }
                    }
                    let p0 = pos;
                    pos = pos.push(k as int);
                    crate::bounds::lemma_push_facts(p0, k as int);
                    assert forall|kk: int| 0 <= kk < row.len() implies 0 <= #[trigger] pos[kk] < k + 1 && row@[kk].0 == TransitionLabel::Char(symbols@[pos[kk]]) by {
                        if kk < r0.len() {
                            assert(row@[kk] == r0[kk]);
                            assert(pos[kk] == p0[kk]);
                        }
                    }
                    assert forall|k1: int, k2: int| 0 <= k1 < row.len() && 0 <= k2 < row.len() && k1 != k2 implies row@[k1].0 != row@[k2].0 by {
                        assert(symbols@[pos[k1]] != symbols@[pos[k2]]);
                    }
                }
            },
        }
    }
    proof {
        lemma_search_next(nfa, keys@, close, symbols@, head as int);
        assert forall|k1: int, k2: int| 0 <= k1 < row.len() && 0 <= k2 < row.len() && k1 != k2 implies row@[k1].0 != row@[k2].0 by {
            assert(pos[k1] != pos[k2]);
            assert(symbols@[pos[k1]] != symbols@[pos[k2]]);
        }
        assert forall|d: char| nfa.alphabet().contains(d) implies #[trigger] row_complete(nfa, keys@, head as int, row@, d) by {
            assert(symbols@.to_set().contains(d));
            let kk = choose|kk: int| 0 <= kk < symbols.len() && symbols@[kk] == d;
            assert(row_complete(nfa, keys@, head as int, row@, symbols@[kk]));
        }
    }
    row
}


/// Composite state `x` accepts: its closure meets the accept set.
pub open spec fn composite_accepts(nfa: &NFA, keys: Seq<Vec<bool>>, x: int) -> bool {
    exists|a: usize| key_set(keys, x).contains(a) && nfa.accept_set().contains(a)
}

} // verus!
