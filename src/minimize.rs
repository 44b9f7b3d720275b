//! Minimization by partition refinement: a splitter work queue, then an
//! explicit stability check, then the automaton over the classes.
use crate::dfa::{map_row, row_lookup, DFA};
use std::collections::{HashMap, HashSet};
use vstd::prelude::*;
use vstd::std_specs::iter::IteratorSpec;

verus! {

broadcast use vstd::std_specs::hash::group_hash_axioms;

/// Every state `d` mentions, each once.
#[verifier::spinoff_prover]
fn collect_states(d: &DFA) -> (st: Vec<usize>)
    ensures
        st@.no_duplicates(),
        forall|s: usize| #[trigger] st@.contains(s) <==> d.states().contains(s),
{
    let mut st: Vec<usize> = Vec::new();
    push_new(&mut st, d.start);
    proof {
        let v = vstd::std_specs::hash::spec_hash_keys_iter(&d.accepts).remaining();
        assert forall|q: int| 0 <= q < v.len() implies d.accepts@.contains(*v[q]) by {
            assert(v.unref()[q] == *v[q]);
            assert(v.unref().to_set().contains(v.unref()[q]));
        }
    }
    for a in it: d.accepts.iter()
        invariant
            st@.no_duplicates(),
            forall|s: usize| #[trigger] st@.contains(s) ==> d.states().contains(s),
            st@.contains(d.start),
            forall|q: int| 0 <= q < it.index() ==> st@.contains(*it.seq()[q]),
            forall|q: int| 0 <= q < it.seq().len() ==> d.accepts@.contains(*it.seq()[q]),
            it.seq() == vstd::std_specs::hash::spec_hash_keys_iter(&d.accepts).remaining(),
    {
        assert(d.states().contains(*a));
        push_new(&mut st, *a);
    }
    proof {
        let v = vstd::std_specs::hash::spec_hash_keys_iter(&d.accepts).remaining();
        assert forall|a: usize| d.accepts@.contains(a) implies #[trigger] st@.contains(a) by {
            assert(v.unref().to_set().contains(a));
            let q = choose|q: int| 0 <= q < v.unref().len() && v.unref()[q] == a;
        }
    }
    for pair in it: d.transitions.iter()
        invariant
            st@.no_duplicates(),
            forall|s: usize| #[trigger] st@.contains(s) ==> d.states().contains(s),
            st@.contains(d.start),
            forall|a: usize| d.accepts@.contains(a) ==> #[trigger] st@.contains(a),
            it.seq() == vstd::std_specs::hash::spec_hash_map_iter(&d.transitions).remaining(),
            forall|q: int| 0 <= q < it.index() ==> st@.contains(*(#[trigger] it.seq()[q]).0),
            forall|q: int, k: int| 0 <= q < it.index() && 0 <= k < (*it.seq()[q].1)@.len() ==> st@.contains(
                (#[trigger] (*it.seq()[q].1)@[k]).1),
    {
        let (src, row) = pair;
        assert(d.transitions@.contains_key(*src) && d.transitions@[*src] == *row);
        let ghost st_before = st@;
        push_new(&mut st, *src);
        let ghost st0 = st@;
        for k in 0..row.len()
            invariant
                st@.no_duplicates(),
                forall|s: usize| #[trigger] st@.contains(s) ==> d.states().contains(s),
                d.transitions@.contains_key(*src) && d.transitions@[*src] == *row,
                forall|x: usize| #[trigger] st0.contains(x) ==> st@.contains(x),
                st@.contains(*src),
                forall|j: int| 0 <= j < k ==> st@.contains((#[trigger] row@[j]).1),
        {
            proof {
                assert(d.row(*src)[k as int].1 == row@[k as int].1);
            }
            push_new(&mut st, row[k].1);
        }
        proof {
            assert forall|x: usize| #[trigger] st_before.contains(x) implies st@.contains(x) by {
                assert(st0.contains(x));
            }
            assert forall|a: usize| d.accepts@.contains(a) implies #[trigger] st@.contains(a) by {
                assert(st_before.contains(a));
            }
        }
    }
    proof {
        assert forall|s: usize| d.states().contains(s) implies #[trigger] st@.contains(s) by {
            let v = vstd::std_specs::hash::spec_hash_map_iter(&d.transitions).remaining();
            if d.transitions@.contains_key(s) {
                assert(v.contains((&s, &d.transitions@[s])));
                let q = choose|q: int| 0 <= q < v.len() && v[q] == (&s, &d.transitions@[s]);
                assert(st@.contains(*v[q].0));
            } else if s != d.start && !d.accepts@.contains(s) {
                let (u, k) = choose|u: usize, k: int| 0 <= k < d.row(u).len() && #[trigger] d.row(u)[k].1 == s;
                assert(d.transitions@.contains_key(u));
                assert(v.contains((&u, &d.transitions@[u])));
                let q = choose|q: int| 0 <= q < v.len() && v[q] == (&u, &d.transitions@[u]);
                assert(st@.contains((*v[q].1)@[k].1));
            }
        }
    }
    st
}

fn push_new(st: &mut Vec<usize>, s: usize)
    requires
        old(st)@.no_duplicates(),
    ensures
        final(st)@.no_duplicates(),
        forall|x: usize| #[trigger] final(st)@.contains(x) <==> (old(st)@.contains(x) || x == s),
{
    let mut k: usize = 0;
    let mut found = false;
    while k < st.len()
        invariant
            st@ == old(st)@,
            k <= st.len(),
            found <==> exists|x: int| 0 <= x < k && st@[x] == s,
        decreases st.len() - k,
    {
        if st[k] == s {
            found = true;
        }
        k = k + 1;
    }
    if !found {
        st.push(s);
        assert forall|x: usize| #[trigger] st@.contains(x) <==> (old(st)@.contains(x) || x == s) by {
            if old(st)@.contains(x) {
                let i = choose|i: int| 0 <= i < old(st)@.len() && old(st)@[i] == x;
                assert(st@[i] == x);
            }
            if x == s {
                assert(st@[old(st)@.len() as int] == x);
            }
        }
    }
}

/// Position of `s` in `st`.
fn index_of(st: &Vec<usize>, s: usize) -> (i: usize)
    requires
        st@.contains(s),
    ensures
        i < st.len(),
        st@[i as int] == s,
{
    let ghost j = choose|j: int| 0 <= j < st@.len() && st@[j] == s;
    let mut i: usize = 0;
    while st[i] != s
        invariant
            0 <= i <= j < st@.len(),
            st@[j] == s,
            forall|k: int| 0 <= k < i ==> st@[k] != s,
        decreases j - i,
    {
        assert(i < j);
        assert(j < st.len());
        i = i + 1;
    }
    i
}

/// The characters that some listed move of `d` reads.
pub open spec fn dfa_alphabet(d: &DFA) -> Set<char> {
    Set::new(|c: char| exists|u: usize, k: int| 0 <= k < d.row(u).len() && #[trigger] d.row(u)[k].0 == c)
}

/// The characters that the rows of the states in `st` read, each once.
fn collect_dfa_symbols(d: &DFA, st: &Vec<usize>) -> (syms: Vec<char>)
    requires
        forall|s: usize| #[trigger] st@.contains(s) <==> d.states().contains(s),
    ensures
        syms@.no_duplicates(),
        forall|c: char| #[trigger] syms@.contains(c) <==> dfa_alphabet(d).contains(c),
{
    let mut syms: Vec<char> = Vec::new();
    for i in 0..st.len()
        invariant
            forall|s: usize| #[trigger] st@.contains(s) <==> d.states().contains(s),
            syms@.no_duplicates(),
            forall|c: char| #[trigger] syms@.contains(c) <==> exists|j: int, k: int|
                0 <= j < i && 0 <= k < d.row(st@[j]).len() && #[trigger] d.row(st@[j])[k].0 == c,
    {
        let s = st[i];
        let ghost pre = syms@;
        match d.transitions.get(&s) {
            None => {
                assert(d.row(s).len() == 0);
            },
            Some(row) => {
                assert(row@ == d.row(s));
                for k in 0..row.len()
                    invariant
                        row@ == d.row(s),
                        syms@.no_duplicates(),
                        forall|c: char| #[trigger] syms@.contains(c) <==> (pre.contains(c) || exists|q: int|
                            0 <= q < k && #[trigger] row@[q].0 == c),
                {
                    push_new_char(&mut syms, row[k].0);
                }
            },
        }
        assert forall|c: char| #[trigger] syms@.contains(c) <==> exists|j: int, k: int|
            0 <= j < i + 1 && 0 <= k < d.row(st@[j]).len() && #[trigger] d.row(st@[j])[k].0 == c by {
            if syms@.contains(c) && !pre.contains(c) {
                let q = choose|q: int| 0 <= q < d.row(s).len() && #[trigger] d.row(s)[q].0 == c;
                assert(d.row(st@[i as int])[q].0 == c);
            }
            if exists|j: int, k: int| 0 <= j < i + 1 && 0 <= k < d.row(st@[j]).len() && #[trigger] d.row(st@[j])[k].0 == c {
                let (j, k) = choose|j: int, k: int| 0 <= j < i + 1 && 0 <= k < d.row(st@[j]).len() && #[trigger] d.row(st@[j])[k].0 == c;
                if j < i {
                    assert(pre.contains(c));
                } else {
                    assert(d.row(s)[k].0 == c);
                }
            }
        }
    }
    assert forall|c: char| #[trigger] syms@.contains(c) <==> dfa_alphabet(d).contains(c) by {
        if dfa_alphabet(d).contains(c) {
            let (u, k) = choose|u: usize, k: int| 0 <= k < d.row(u).len() && #[trigger] d.row(u)[k].0 == c;
            assert(d.transitions@.contains_key(u));
            assert(d.states().contains(u));
            assert(st@.contains(u));
            let j = choose|j: int| 0 <= j < st.len() && st@[j] == u;
            assert(d.row(st@[j])[k].0 == c);
        }
    }
    syms
}

fn push_new_char(syms: &mut Vec<char>, c: char)
    requires
        old(syms)@.no_duplicates(),
    ensures
        final(syms)@.no_duplicates(),
        forall|x: char| #[trigger] final(syms)@.contains(x) <==> (old(syms)@.contains(x) || x == c),
{
    let mut k: usize = 0;
    let mut found = false;
    while k < syms.len()
        invariant
            syms@ == old(syms)@,
            k <= syms.len(),
            found <==> exists|x: int| 0 <= x < k && syms@[x] == c,
        decreases syms.len() - k,
    {
        if syms[k] == c {
            found = true;
        }
        k = k + 1;
    }
    if !found {
        syms.push(c);
        assert forall|x: char| #[trigger] syms@.contains(x) <==> (old(syms)@.contains(x) || x == c) by {
            if old(syms)@.contains(x) {
                let i = choose|i: int| 0 <= i < old(syms)@.len() && old(syms)@[i] == x;
                assert(syms@[i] == x);
            }
            if x == c {
                assert(syms@[old(syms)@.len() as int] == x);
            }
        }
    }
}

/// A move into a state of `d` leads to a state `d` mentions.
proof fn lemma_next_in_states(d: &DFA, u: usize, c: char)
    ensures
        d.next(u, c) matches Some(t) ==> d.states().contains(t),
{
    if d.next(u, c) is Some {
        let i = choose|i: int| crate::dfa::first_hit(d.row(u), c, i);
        assert(d.row(u)[i].1 == d.next(u, c)->0);
    }
}

/// A character no listed move reads leads nowhere.
proof fn lemma_next_outside_alphabet(d: &DFA, u: usize, c: char)
    requires
        !dfa_alphabet(d).contains(c),
    ensures
        d.next(u, c) is None,
{
    if d.next(u, c) is Some {
        let i = choose|i: int| crate::dfa::first_hit(d.row(u), c, i);
        assert(d.row(u)[i].0 == c);
    }
}

/// The move of state index `i` on symbol `c`, as a state index.
pub open spec fn delta_ok(d: &DFA, st: Seq<usize>, i: int, c: char, o: Option<usize>) -> bool {
    match d.next(st[i], c) {
        None => o is None,
        Some(t) => o matches Some(j) && (j as int) < st.len() && st[j as int] == t,
    }
}

/// The move table over state indices: `delta[i][a]` is the index of the
/// move of `st[i]` on `syms[a]`.
fn build_delta(d: &DFA, st: &Vec<usize>, syms: &Vec<char>) -> (delta: Vec<Vec<Option<usize>>>)
    requires
        forall|s: usize| #[trigger] st@.contains(s) <==> d.states().contains(s),
    ensures
        delta@.len() == st@.len(),
        forall|i: int| 0 <= i < st@.len() ==> (#[trigger] delta@[i])@.len() == syms@.len(),
        forall|i: int, a: int| 0 <= i < st@.len() && 0 <= a < syms@.len() ==> delta_ok(d, st@, i, syms@[a], #[trigger] delta@[i]@[a]),
{
    let mut delta: Vec<Vec<Option<usize>>> = Vec::new();
    for i in 0..st.len()
        invariant
            forall|s: usize| #[trigger] st@.contains(s) <==> d.states().contains(s),
            delta@.len() == i,
            forall|x: int| 0 <= x < i ==> (#[trigger] delta@[x])@.len() == syms@.len(),
            forall|x: int, a: int| 0 <= x < i && 0 <= a < syms@.len() ==> delta_ok(d, st@, x, syms@[a], #[trigger] delta@[x]@[a]),
    {
        let mut line: Vec<Option<usize>> = Vec::new();
        for a in 0..syms.len()
            invariant
                forall|s: usize| #[trigger] st@.contains(s) <==> d.states().contains(s),
                i < st.len(),
                line@.len() == a,
                forall|b: int| 0 <= b < a ==> delta_ok(d, st@, i as int, syms@[b], #[trigger] line@[b]),
        {
            let o = match d.step(st[i], syms[a]) {
                None => None,
                Some(t) => {
                    proof {
                        lemma_next_in_states(d, st@[i as int], syms@[a as int]);
                    }
                    Some(index_of(st, t))
                },
            };
            line.push(o);
        }
        delta.push(line);
    }
    delta
}

/// Reading `w` tells `p` and `q` apart: one run stops on a missing move and
/// the other does not, or both end and exactly one ends accepting.
pub open spec fn separates(d: &DFA, p: usize, q: usize, w: Seq<char>) -> bool {
    match (d.run_from(p, w), d.run_from(q, w)) {
        (Some(x), Some(y)) => d.accepts@.contains(x) != d.accepts@.contains(y),
        (None, None) => false,
        _ => true,
    }
}

/// Some input tells `p` and `q` apart.
pub open spec fn differ(d: &DFA, p: usize, q: usize) -> bool {
    exists|w: Seq<char>| #[trigger] separates(d, p, q, w)
}

/// Reading `c` first, then `w`.
pub proof fn lemma_run_prepend(d: &DFA, p: usize, c: char, w: Seq<char>)
    ensures
        d.run_from(p, seq![c] + w) == match d.next(p, c) {
            Some(t) => d.run_from(t, w),
            None => None,
        },
    decreases w.len(),
{
    let cw = seq![c] + w;
    if w.len() == 0 {
        assert(cw =~= seq![c]);
        assert(cw.drop_last() =~= Seq::<char>::empty());
        assert(cw.last() == c);
        assert(d.run_from(p, cw.drop_last()) == Some(p));
        if let Some(t) = d.next(p, c) {
            assert(d.run_from(t, w) == Some(t));
        }
    } else {
        assert(cw.drop_last() =~= seq![c] + w.drop_last());
        assert(cw.last() == w.last());
        lemma_run_prepend(d, p, c, w.drop_last());
    }
}

/// States whose moves on `c` differ in being defined, or lead to states
/// that differ, differ themselves.
proof fn lemma_differ_back(d: &DFA, p: usize, q: usize, c: char)
    requires
        (d.next(p, c) is Some) != (d.next(q, c) is Some) || (d.next(p, c) is Some && d.next(q, c) is Some
            && differ(d, d.next(p, c)->0, d.next(q, c)->0)),
    ensures
        differ(d, p, q),
{
    if (d.next(p, c) is Some) != (d.next(q, c) is Some) {
        let w = seq![c];
        lemma_run_prepend(d, p, c, Seq::empty());
        lemma_run_prepend(d, q, c, Seq::empty());
        assert(seq![c] + Seq::<char>::empty() =~= w);
        assert(separates(d, p, q, w));
    } else {
        let tp = d.next(p, c)->0;
        let tq = d.next(q, c)->0;
        let w = choose|w: Seq<char>| #[trigger] separates(d, tp, tq, w);
        lemma_run_prepend(d, p, c, w);
        lemma_run_prepend(d, q, c, w);
        assert(separates(d, p, q, seq![c] + w));
    }
}

/// A valid class assignment over `m` state indices: `cls[i]` is the class of
/// state `i`, and `wit[c]` a member of class `c`.
pub open spec fn part_ok(cls: Seq<usize>, wit: Seq<usize>, m: nat) -> bool {
    &&& cls.len() == m
    &&& forall|i: int| 0 <= i < m ==> (#[trigger] cls[i] as int) < wit.len()
    &&& forall|c: int| 0 <= c < wit.len() ==> (#[trigger] wit[c] as int) < m && cls[wit[c] as int] == c
}

/// States in different classes differ.
pub open spec fn sep_ok(d: &DFA, st: Seq<usize>, cls: Seq<usize>) -> bool {
    forall|i: int, j: int|
        0 <= i < st.len() && 0 <= j < st.len() && #[trigger] cls[i] != #[trigger] cls[j] ==> differ(d, st[i], st[j])
}

/// Every splitter is a union of classes.
pub open spec fn queue_ok(queue: Seq<Vec<bool>>, cls: Seq<usize>) -> bool {
    forall|q: int| 0 <= q < queue.len() ==> {
        &&& (#[trigger] queue[q])@.len() == cls.len()
        &&& forall|i: int, j: int| 0 <= i < cls.len() && 0 <= j < cls.len() && cls[i] == cls[j] ==> queue[q]@[i] == queue[q]@[j]
    }
}

proof fn lemma_classes_bounded(cls: Seq<usize>, wit: Seq<usize>, m: nat)
    requires
        part_ok(cls, wit, m),
        m <= usize::MAX,
    ensures
        wit.len() <= m,
{
    assert forall|a: int, b: int| 0 <= a < wit.len() && 0 <= b < wit.len() && a != b implies wit[a] != wit[b] by {
        assert(cls[wit[a] as int] == a);
        assert(cls[wit[b] as int] == b);
    }
    assert forall|a: int| 0 <= a < wit.len() implies (#[trigger] wit[a] as nat) < m by {}
    crate::bounds::lemma_distinct_below(wit, m);
}

/// Moves the members of class `c` that `sel` leaves out into a new class,
/// and queues the smaller of the two parts as a splitter.
fn split(
    cls: &mut Vec<usize>,
    wit: &mut Vec<usize>,
    queue: &mut Vec<Vec<bool>>,
    c: usize,
    sel: &Vec<bool>,
    i_in: usize,
    j_out: usize,
)
    requires
        part_ok(old(cls)@, old(wit)@, old(cls)@.len()),
        queue_ok(old(queue)@, old(cls)@),
        sel@.len() == old(cls)@.len(),
        (c as int) < old(wit)@.len(),
        (i_in as int) < old(cls)@.len(),
        (j_out as int) < old(cls)@.len(),
        old(cls)@[i_in as int] == c,
        old(cls)@[j_out as int] == c,
        sel@[i_in as int],
        !sel@[j_out as int],
    ensures
        final(cls)@.len() == old(cls)@.len(),
        final(wit)@.len() == old(wit)@.len() + 1,
        forall|x: int| 0 <= x < old(cls)@.len() ==> #[trigger] final(cls)@[x] == if old(cls)@[x] == c && !sel@[x] {
            old(wit)@.len() as usize
        } else {
            old(cls)@[x]
        },
        part_ok(final(cls)@, final(wit)@, final(cls)@.len()),
        queue_ok(final(queue)@, final(cls)@),
        final(queue)@.len() == old(queue)@.len() + 1,
        forall|q: int| 0 <= q < old(queue)@.len() ==> #[trigger] final(queue)@[q] == old(queue)@[q],
{
    let m = cls.len();
    let k = wit.len();
    proof {
        lemma_classes_bounded(cls@, wit@, m as nat);
    }
    let mut n_in: usize = 0;
    let mut n_out: usize = 0;
    let mut x: usize = 0;
    while x < m
        invariant
            m == cls.len(),
            m == old(cls)@.len(),
            sel@.len() == m,
            x <= m,
            n_in <= x,
            n_out <= x,
            k == old(wit)@.len(),
            wit@ == old(wit)@,
            forall|y: int| 0 <= y < x ==> #[trigger] cls@[y] == if old(cls)@[y] == c && !sel@[y] { k } else { old(cls)@[y] },
            forall|y: int| x <= y < m ==> #[trigger] cls@[y] == old(cls)@[y],
        decreases m - x,
    {
        if cls[x] == c {
            if sel[x] {
                n_in = n_in + 1;
            } else {
                n_out = n_out + 1;
                cls.set(x, k);
            }
        }
        x = x + 1;
    }
    wit.set(c, i_in);
    wit.push(j_out);
    let mut part: Vec<bool> = Vec::new();
    let keep_in = n_in <= n_out;
    let mut y: usize = 0;
    while y < m
        invariant
            m == cls.len(),
            part@.len() == y,
            y <= m,
            forall|z: int| 0 <= z < y ==> #[trigger] part@[z] == if keep_in { cls@[z] == c } else { cls@[z] == k },
        decreases m - y,
    {
        part.push(if keep_in { cls[y] == c } else { cls[y] == k });
        y = y + 1;
    }
    queue.push(part);
    proof {
        assert forall|i: int| 0 <= i < m implies (#[trigger] cls@[i] as int) < wit@.len() by {}
        assert forall|cc: int| 0 <= cc < wit@.len() implies (#[trigger] wit@[cc] as int) < m && cls@[wit@[cc] as int] == cc by {
            if cc < k && cc != c {
                assert(old(wit)@[cc] == wit@[cc]);
                assert(old(cls)@[old(wit)@[cc] as int] == cc);
            }
        }
        assert forall|q: int| 0 <= q < queue@.len() implies {
            &&& (#[trigger] queue@[q])@.len() == cls@.len()
            &&& forall|i: int, j: int| 0 <= i < cls@.len() && 0 <= j < cls@.len() && cls@[i] == cls@[j] ==> queue@[q]@[i] == queue@[q]@[j]
        } by {
            if q < old(queue)@.len() {
                assert(queue@[q] == old(queue)@[q]);
                assert forall|i: int, j: int| 0 <= i < cls@.len() && 0 <= j < cls@.len() && cls@[i] == cls@[j]
                    implies queue@[q]@[i] == queue@[q]@[j] by {
                    assert(old(cls)@[i] == old(cls)@[j]);
                }
            }
        }
    }
}

proof fn lemma_differ_symmetric(d: &DFA, p: usize, q: usize)
    requires
        differ(d, p, q),
    ensures
        differ(d, q, p),
{
    let w = choose|w: Seq<char>| #[trigger] separates(d, p, q, w);
    assert(separates(d, q, p, w));
}

/// Splitting off the unselected members of a class keeps "different classes
/// differ" when every selected member differs from every unselected one.
proof fn lemma_split_sep(d: &DFA, st: Seq<usize>, old_cls: Seq<usize>, cls: Seq<usize>, c: usize, sel: Seq<bool>, k: usize)
    requires
        sep_ok(d, st, old_cls),
        old_cls.len() == st.len(),
        cls.len() == st.len(),
        sel.len() == st.len(),
        forall|x: int| 0 <= x < old_cls.len() ==> old_cls[x] != k,
        forall|x: int| 0 <= x < st.len() ==> #[trigger] cls[x] == if old_cls[x] == c && !sel[x] { k } else { old_cls[x] },
        forall|x: int, y: int|
            0 <= x < st.len() && 0 <= y < st.len() && old_cls[x] == c && old_cls[y] == c && sel[x] && !sel[y]
                ==> differ(d, st[x], st[y]),
    ensures
        sep_ok(d, st, cls),
{
    assert forall|i: int, j: int|
        0 <= i < st.len() && 0 <= j < st.len() && #[trigger] cls[i] != #[trigger] cls[j] implies differ(d, st[i], st[j]) by {
        if old_cls[i] != old_cls[j] {
            assert(differ(d, st[i], st[j]));
        } else if sel[i] {
            assert(!sel[j]);
        } else {
            assert(sel[j]);
            lemma_differ_symmetric(d, st[j], st[i]);
        }
    }
}

/// An optional index below `m`.
pub open spec fn bounded_opt(o: Option<usize>, m: int) -> bool {
    match o {
        Some(t) => (t as int) < m,
        None => true,
    }
}

/// Two optional moves agree under the class assignment: both missing, or
/// both present and into one class.
pub open spec fn agrees(o1: Option<usize>, o2: Option<usize>, cls: Seq<usize>) -> bool {
    match (o1, o2) {
        (None, None) => true,
        (Some(t1), Some(t2)) => cls[t1 as int] == cls[t2 as int],
        _ => false,
    }
}

fn agree(o1: Option<usize>, o2: Option<usize>, cls: &Vec<usize>) -> (r: bool)
    requires
        o1 matches Some(t) ==> (t as int) < cls@.len(),
        o2 matches Some(t) ==> (t as int) < cls@.len(),
    ensures
        r == agrees(o1, o2, cls@),
{
    match (o1, o2) {
        (None, None) => true,
        (Some(t1), Some(t2)) => cls[t1] == cls[t2],
        _ => false,
    }
}

/// The facts the move table carries.
pub open spec fn table_ok(d: &DFA, st: Seq<usize>, syms: Seq<char>, delta: Seq<Vec<Option<usize>>>) -> bool {
    &&& delta.len() == st.len()
    &&& forall|i: int| 0 <= i < st.len() ==> (#[trigger] delta[i])@.len() == syms.len()
    &&& forall|i: int, a: int| 0 <= i < st.len() && 0 <= a < syms.len() ==> delta_ok(d, st, i, syms[a], #[trigger] delta[i]@[a])
}

/// States whose moves on a symbol disagree differ.
proof fn lemma_disagree_differ(
    d: &DFA,
    st: Seq<usize>,
    syms: Seq<char>,
    delta: Seq<Vec<Option<usize>>>,
    cls: Seq<usize>,
    x: int,
    y: int,
    a: int,
)
    requires
        table_ok(d, st, syms, delta),
        cls.len() == st.len(),
        sep_ok(d, st, cls),
        0 <= x < st.len(),
        0 <= y < st.len(),
        0 <= a < syms.len(),
        !agrees(delta[x]@[a], delta[y]@[a], cls),
    ensures
        differ(d, st[x], st[y]),
{
    assert(delta_ok(d, st, x, syms[a], delta[x]@[a]));
    assert(delta_ok(d, st, y, syms[a], delta[y]@[a]));
    if delta[x]@[a] is Some && delta[y]@[a] is Some {
        let tx = delta[x]@[a]->0 as int;
        let ty = delta[y]@[a]->0 as int;
        assert(cls[tx] != cls[ty]);
        assert(differ(d, st[tx], st[ty]));
    }
    lemma_differ_back(d, st[x], st[y], syms[a]);
}

/// The states whose move on `syms[a]` lands in the splitter.
fn preds(delta: &Vec<Vec<Option<usize>>>, splitter: &Vec<bool>, a: usize) -> (pred: Vec<bool>)
    requires
        forall|i: int| 0 <= i < delta@.len() ==> (#[trigger] delta@[i])@.len() > a,
        forall|i: int| 0 <= i < delta@.len() ==> bounded_opt((#[trigger] delta@[i])@[a as int], splitter@.len() as int),
    ensures
        pred@.len() == delta@.len(),
        forall|i: int| 0 <= i < delta@.len() ==> #[trigger] pred@[i] == match delta@[i]@[a as int] {
            Some(t) => splitter@[t as int],
            None => false,
        },
{
    let mut pred: Vec<bool> = Vec::new();
    for i in 0..delta.len()
        invariant
            pred@.len() == i,
            forall|j: int| 0 <= j < delta@.len() ==> (#[trigger] delta@[j])@.len() > a,
            forall|j: int| 0 <= j < delta@.len() ==> bounded_opt((#[trigger] delta@[j])@[a as int], splitter@.len() as int),
            forall|j: int| 0 <= j < i ==> #[trigger] pred@[j] == match delta@[j]@[a as int] {
                Some(t) => splitter@[t as int],
                None => false,
            },
    {
        let hit = match delta[i][a] {
            Some(t) => splitter[t],
            None => false,
        };
        pred.push(hit);
    }
    pred
}

/// Splits class `c` by `sel` when `sel` cuts it in two; otherwise leaves all as it is.
fn try_split(cls: &mut Vec<usize>, wit: &mut Vec<usize>, queue: &mut Vec<Vec<bool>>, c: usize, sel: &Vec<bool>) -> (did: bool)
    requires
        part_ok(old(cls)@, old(wit)@, old(cls)@.len()),
        queue_ok(old(queue)@, old(cls)@),
        sel@.len() == old(cls)@.len(),
        (c as int) < old(wit)@.len(),
    ensures
        !did ==> final(cls)@ == old(cls)@ && final(wit)@ == old(wit)@ && final(queue)@ == old(queue)@,
        did ==> {
            &&& final(cls)@.len() == old(cls)@.len()
            &&& final(wit)@.len() == old(wit)@.len() + 1
            &&& forall|x: int| 0 <= x < old(cls)@.len() ==> #[trigger] final(cls)@[x] == if old(cls)@[x] == c && !sel@[x] {
                old(wit)@.len() as usize
            } else {
                old(cls)@[x]
            }
            &&& part_ok(final(cls)@, final(wit)@, final(cls)@.len())
            &&& queue_ok(final(queue)@, final(cls)@)
            &&& final(queue)@.len() == old(queue)@.len() + 1
            &&& forall|q: int| 0 <= q < old(queue)@.len() ==> #[trigger] final(queue)@[q] == old(queue)@[q]
        },
{
    let mut i_in: Option<usize> = None;
    let mut j_out: Option<usize> = None;
    for x in 0..cls.len()
        invariant
            sel@.len() == cls@.len(),
            i_in matches Some(i) ==> (i as int) < cls@.len() && cls@[i as int] == c && sel@[i as int],
            j_out matches Some(j) ==> (j as int) < cls@.len() && cls@[j as int] == c && !sel@[j as int],
    {
        if cls[x] == c {
            if sel[x] {
                i_in = Some(x);
            } else {
                j_out = Some(x);
            }
        }
    }
    match (i_in, j_out) {
        (Some(i), Some(j)) => {
            split(cls, wit, queue, c, sel, i, j);
            true
        },
        _ => false,
    }
}

/// All is stable: every state agrees with its class's witness on acceptance
/// and on the class of every move.
pub open spec fn stable(acc: Seq<bool>, delta: Seq<Vec<Option<usize>>>, cls: Seq<usize>, wit: Seq<usize>, nsyms: nat) -> bool {
    forall|i: int| 0 <= i < cls.len() ==> {
        &&& #[trigger] acc[i] == acc[wit[cls[i] as int] as int]
        &&& forall|a: int| 0 <= a < nsyms ==> agrees(#[trigger] delta[i]@[a], delta[wit[cls[i] as int] as int]@[a], cls)
    }
}

/// The members that share the acceptance of state `w`.
fn select_by_acceptance(acc: &Vec<bool>, w: usize) -> (sel: Vec<bool>)
    requires
        (w as int) < acc@.len(),
    ensures
        sel@.len() == acc@.len(),
        forall|x: int| 0 <= x < acc@.len() ==> #[trigger] sel@[x] == (acc@[x] == acc@[w as int]),
{
    let mut sel: Vec<bool> = Vec::new();
    for x in 0..acc.len()
        invariant
            sel@.len() == x,
            (w as int) < acc@.len(),
            forall|y: int| 0 <= y < x ==> #[trigger] sel@[y] == (acc@[y] == acc@[w as int]),
    {
        sel.push(acc[x] == acc[w]);
    }
    sel
}

/// The members whose move on symbol `a` agrees with that of state `w`.
fn select_by_move(delta: &Vec<Vec<Option<usize>>>, cls: &Vec<usize>, w: usize, a: usize) -> (sel: Vec<bool>)
    requires
        delta@.len() == cls@.len(),
        (w as int) < cls@.len(),
        forall|i: int| 0 <= i < cls@.len() ==> a < (#[trigger] delta@[i])@.len(),
        forall|i: int| 0 <= i < cls@.len() ==> bounded_opt(#[trigger] delta@[i]@[a as int], cls@.len() as int),
    ensures
        sel@.len() == cls@.len(),
        forall|x: int| 0 <= x < cls@.len() ==> #[trigger] sel@[x] == agrees(delta@[x]@[a as int], delta@[w as int]@[a as int], cls@),
{
    let mut sel: Vec<bool> = Vec::new();
    for x in 0..cls.len()
        invariant
            sel@.len() == x,
            delta@.len() == cls@.len(),
            (w as int) < cls@.len(),
            forall|i: int| 0 <= i < cls@.len() ==> a < (#[trigger] delta@[i])@.len(),
            forall|i: int| 0 <= i < cls@.len() ==> bounded_opt(#[trigger] delta@[i]@[a as int], cls@.len() as int),
            forall|y: int| 0 <= y < x ==> #[trigger] sel@[y] == agrees(delta@[y]@[a as int], delta@[w as int]@[a as int], cls@),
    {
        sel.push(agree(delta[x][a], delta[w][a], cls));
    }
    sel
}

/// State `i` agrees with the witness of its class on acceptance and every move.
pub open spec fn settled(acc: Seq<bool>, delta: Seq<Vec<Option<usize>>>, cls: Seq<usize>, wit: Seq<usize>, nsyms: nat, i: int) -> bool {
    &&& acc[i] == acc[wit[cls[i] as int] as int]
    &&& forall|a: int| 0 <= a < nsyms ==> agrees(#[trigger] delta[i]@[a], delta[wit[cls[i] as int] as int]@[a], cls)
}

/// A class that is not yet stable, with a selector that cuts it: the members
/// that agree with the witness (on acceptance, or on one symbol) against the rest.
fn find_unstable(
    acc: &Vec<bool>,
    delta: &Vec<Vec<Option<usize>>>,
    cls: &Vec<usize>,
    wit: &Vec<usize>,
    nsyms: usize,
) -> (r: Option<(usize, Vec<bool>, usize, usize, Option<usize>)>)
    requires
        part_ok(cls@, wit@, cls@.len()),
        acc@.len() == cls@.len(),
        delta@.len() == cls@.len(),
        forall|i: int| 0 <= i < cls@.len() ==> (#[trigger] delta@[i])@.len() == nsyms,
        forall|i: int, a: int| 0 <= i < cls@.len() && 0 <= a < nsyms ==> bounded_opt(#[trigger] delta@[i]@[a], cls@.len() as int),
    ensures
        r is None ==> forall|i: int| 0 <= i < cls@.len() ==> #[trigger] settled(acc@, delta@, cls@, wit@, nsyms as nat, i),
        r matches Some((c, sel, i_in, j_out, sym)) ==> {
            &&& (c as int) < wit@.len()
            &&& sel@.len() == cls@.len()
            &&& (i_in as int) < cls@.len() && cls@[i_in as int] == c && sel@[i_in as int]
            &&& (j_out as int) < cls@.len() && cls@[j_out as int] == c && !sel@[j_out as int]
            &&& match sym {
                None => forall|x: int| 0 <= x < cls@.len() ==> #[trigger] sel@[x] == (acc@[x] == acc@[i_in as int]),
                Some(a) => (a as int) < nsyms && forall|x: int| 0 <= x < cls@.len() ==> #[trigger] sel@[x] == agrees(
                    delta@[x]@[a as int], delta@[i_in as int]@[a as int], cls@),
            }
        },
{
    let m = cls.len();
    for i in 0..m
        invariant
            m == cls@.len(),
            part_ok(cls@, wit@, cls@.len()),
            acc@.len() == m,
            delta@.len() == m,
            forall|x: int| 0 <= x < m ==> (#[trigger] delta@[x])@.len() == nsyms,
            forall|x: int, a: int| 0 <= x < m && 0 <= a < nsyms ==> bounded_opt(#[trigger] delta@[x]@[a], m as int),
            forall|x: int| 0 <= x < i ==> #[trigger] settled(acc@, delta@, cls@, wit@, nsyms as nat, x),
    {
        let c = cls[i];
        let w = wit[c];
        if acc[i] != acc[w] {
            let sel = select_by_acceptance(acc, w);
            return Some((c, sel, w, i, None));
        }
        for a in 0..nsyms
            invariant
                m == cls@.len(),
                (w as int) < m,
                (i as int) < m,
                delta@.len() == m,
                forall|x: int| 0 <= x < m ==> (#[trigger] delta@[x])@.len() == nsyms,
                forall|x: int, b: int| 0 <= x < m && 0 <= b < nsyms ==> bounded_opt(#[trigger] delta@[x]@[b], m as int),
                forall|b: int| 0 <= b < a ==> agrees(#[trigger] delta@[i as int]@[b], delta@[w as int]@[b], cls@),
                part_ok(cls@, wit@, cls@.len()),
                c == cls@[i as int],
                w == wit@[c as int],
        {
            if !agree(delta[i][a], delta[w][a], cls) {
                let sel = select_by_move(delta, cls, w, a);
                return Some((c, sel, w, i, Some(a)));
            }
        }
        assert(settled(acc@, delta@, cls@, wit@, nsyms as nat, i as int));
    }
    None
}

/// Whether each state accepts.
fn accept_flags(d: &DFA, st: &Vec<usize>) -> (acc: Vec<bool>)
    ensures
        acc@.len() == st@.len(),
        forall|i: int| 0 <= i < st@.len() ==> #[trigger] acc@[i] == d.accepts@.contains(st@[i]),
{
    let mut acc: Vec<bool> = Vec::new();
    for i in 0..st.len()
        invariant
            acc@.len() == i,
            forall|j: int| 0 <= j < i ==> #[trigger] acc@[j] == d.accepts@.contains(st@[j]),
    {
        acc.push(d.accepts.contains(&st[i]));
    }
    acc
}

/// The initial partition: the non-accepting states, then the accepting
/// ones, leaving out an empty class; both classes queued as splitters.
fn initial_partition(acc: &Vec<bool>) -> (r: (Vec<usize>, Vec<usize>, Vec<Vec<bool>>))
    requires
        acc@.len() >= 1,
    ensures
        part_ok(r.0@, r.1@, acc@.len()),
        queue_ok(r.2@, r.0@),
        forall|i: int, j: int| 0 <= i < acc@.len() && 0 <= j < acc@.len() && #[trigger] r.0@[i] != #[trigger] r.0@[j] ==> acc@[i] != acc@[j],
{
    let m = acc.len();
    let mut first_rej: Option<usize> = None;
    let mut first_acc: Option<usize> = None;
    for i in 0..m
        invariant
            m == acc@.len(),
            first_rej matches Some(x) ==> (x as int) < m && !acc@[x as int],
            first_acc matches Some(x) ==> (x as int) < m && acc@[x as int],
            first_rej is None ==> forall|x: int| 0 <= x < i ==> acc@[x],
            first_acc is None ==> forall|x: int| 0 <= x < i ==> !acc@[x],
    {
        if acc[i] {
            if first_acc.is_none() {
                first_acc = Some(i);
            }
        } else {
            if first_rej.is_none() {
                first_rej = Some(i);
            }
        }
    }
    let mut cls: Vec<usize> = Vec::new();
    let mut wit: Vec<usize> = Vec::new();
    let mut queue: Vec<Vec<bool>> = Vec::new();
    match (first_rej, first_acc) {
        (Some(r0), Some(a0)) => {
            let mut rej_part: Vec<bool> = Vec::new();
            for i in 0..m
                invariant
                    m == acc@.len(),
                    cls@.len() == i,
                    rej_part@.len() == i,
                    forall|x: int| 0 <= x < i ==> #[trigger] cls@[x] == if acc@[x] { 1usize } else { 0usize },
                    forall|x: int| 0 <= x < i ==> #[trigger] rej_part@[x] == !acc@[x],
            {
                cls.push(if acc[i] { 1 } else { 0 });
                rej_part.push(!acc[i]);
            }
            let acc_part = acc.clone();
            wit.push(r0);
            wit.push(a0);
            queue.push(rej_part);
            queue.push(acc_part);
            proof {
                assert(queue@[0]@ == rej_part@);
            }
        },
        _ => {
            let mut all: Vec<bool> = Vec::new();
            for i in 0..m
                invariant
                    cls@.len() == i,
                    all@.len() == i,
                    forall|x: int| 0 <= x < i ==> #[trigger] cls@[x] == 0usize,
                    forall|x: int| 0 <= x < i ==> #[trigger] all@[x],
            {
                cls.push(0);
                all.push(true);
            }
            wit.push(0);
            queue.push(all);
        },
    }
    (cls, wit, queue)
}

/// A copy of a splitter.
fn copy_bits(b: &Vec<bool>) -> (r: Vec<bool>)
    ensures
        r@ == b@,
{
    let mut r: Vec<bool> = Vec::new();
    for i in 0..b.len()
        invariant
            r@ == b@.take(i as int),
    {
        r.push(b[i]);
        assert(r@ =~= b@.take(i + 1));
    }
    assert(b@.take(b.len() as int) =~= b@);
    r
}

/// Every state of the partition's move table is a valid index, and each
/// state's acceptance is recorded.
pub open spec fn facts_ok(d: &DFA, st: Seq<usize>, syms: Seq<char>, delta: Seq<Vec<Option<usize>>>, acc: Seq<bool>) -> bool {
    &&& table_ok(d, st, syms, delta)
    &&& acc.len() == st.len()
    &&& forall|i: int| 0 <= i < st.len() ==> #[trigger] acc[i] == d.accepts@.contains(st[i])
}

proof fn lemma_delta_bounded(d: &DFA, st: Seq<usize>, syms: Seq<char>, delta: Seq<Vec<Option<usize>>>)
    requires
        table_ok(d, st, syms, delta),
    ensures
        forall|i: int, a: int| 0 <= i < st.len() && 0 <= a < syms.len() ==> bounded_opt(#[trigger] delta[i]@[a], st.len() as int),
{
    assert forall|i: int, a: int| 0 <= i < st.len() && 0 <= a < syms.len() implies bounded_opt(#[trigger] delta[i]@[a], st.len() as int) by {
        assert(delta_ok(d, st, i, syms[a], delta[i]@[a]));
    }
}

/// States told apart by the splitter on symbol `a` differ.
proof fn lemma_pred_justified(
    d: &DFA,
    st: Seq<usize>,
    syms: Seq<char>,
    delta: Seq<Vec<Option<usize>>>,
    cls: Seq<usize>,
    splitter: Seq<bool>,
    a: int,
    pred: Seq<bool>,
)
    requires
        table_ok(d, st, syms, delta),
        cls.len() == st.len(),
        sep_ok(d, st, cls),
        0 <= a < syms.len(),
        splitter.len() == st.len(),
        forall|i: int, j: int| 0 <= i < cls.len() && 0 <= j < cls.len() && cls[i] == cls[j] ==> splitter[i] == splitter[j],
        pred.len() == st.len(),
        forall|i: int| 0 <= i < st.len() ==> #[trigger] pred[i] == match delta[i]@[a] {
            Some(t) => splitter[t as int],
            None => false,
        },
    ensures
        forall|x: int, y: int|
            0 <= x < st.len() && 0 <= y < st.len() && cls[x] == cls[y] && pred[x] && !pred[y] ==> differ(d, st[x], st[y]),
{
    lemma_delta_bounded(d, st, syms, delta);
    assert forall|x: int, y: int|
        0 <= x < st.len() && 0 <= y < st.len() && cls[x] == cls[y] && pred[x] && !pred[y] implies differ(d, st[x], st[y]) by {
        assert(pred[x] && !pred[y]);
        assert(bounded_opt(delta[x]@[a], st.len() as int));
        assert(bounded_opt(delta[y]@[a], st.len() as int));
        assert(!agrees(delta[x]@[a], delta[y]@[a], cls));
        lemma_disagree_differ(d, st, syms, delta, cls, x, y, a);
    }
}

/// Partition refinement to a fixpoint: splitters from the work queue first,
/// then an explicit check that every class is stable, splitting and going
/// back to the queue until the check finds nothing.
#[verifier::spinoff_prover]
fn refine(d: &DFA, st: &Vec<usize>, syms: &Vec<char>, delta: &Vec<Vec<Option<usize>>>, acc: &Vec<bool>) -> (r: (Vec<usize>, Vec<usize>))
    requires
        st@.len() >= 1,
        facts_ok(d, st@, syms@, delta@, acc@),
    ensures
        part_ok(r.0@, r.1@, st@.len()),
        sep_ok(d, st@, r.0@),
        forall|i: int| 0 <= i < st@.len() ==> #[trigger] settled(acc@, delta@, r.0@, r.1@, syms@.len(), i),
{
    let m = st.len();
    let (mut cls, mut wit, mut queue) = initial_partition(acc);
    proof {
        lemma_delta_bounded(d, st@, syms@, delta@);
        assert forall|i: int, j: int| 0 <= i < m && 0 <= j < m && #[trigger] cls@[i] != #[trigger] cls@[j]
            implies differ(d, st@[i], st@[j]) by {
            assert(separates(d, st@[i], st@[j], Seq::empty()));
        }
    }
    let mut qh: usize = 0;
    loop
        invariant
            m == st@.len(),
            facts_ok(d, st@, syms@, delta@, acc@),
            forall|i: int, a: int| 0 <= i < st@.len() && 0 <= a < syms@.len() ==> bounded_opt(#[trigger] delta@[i]@[a], st@.len() as int),
            part_ok(cls@, wit@, m as nat),
            sep_ok(d, st@, cls@),
            queue_ok(queue@, cls@),
            qh <= queue.len(),
        ensures
            part_ok(cls@, wit@, m as nat),
            sep_ok(d, st@, cls@),
            forall|i: int| 0 <= i < m ==> #[trigger] settled(acc@, delta@, cls@, wit@, syms@.len(), i),
        decreases m - wit.len(), queue.len() - qh,
    {
        proof {
            lemma_classes_bounded(cls@, wit@, m as nat);
        }
        let ghost k_start = wit.len();
        let ghost q_start = queue.len();
        if qh < queue.len() {
            let splitter = copy_bits(&queue[qh]);
            qh = qh + 1;
            for a in 0..syms.len()
                invariant
                    m == st@.len(),
                    facts_ok(d, st@, syms@, delta@, acc@),
                    forall|i: int, b: int| 0 <= i < st@.len() && 0 <= b < syms@.len() ==> bounded_opt(#[trigger] delta@[i]@[b], st@.len() as int),
                    part_ok(cls@, wit@, m as nat),
                    sep_ok(d, st@, cls@),
                    queue_ok(queue@, cls@),
                    qh <= queue.len(),
                    splitter@.len() == m,
                    forall|i: int, j: int| 0 <= i < m && 0 <= j < m && cls@[i] == cls@[j] ==> splitter@[i] == splitter@[j],
                    k_start <= wit.len(),
                    q_start <= queue.len(),
                    wit.len() == k_start ==> queue.len() == q_start,
            {
                let pred = preds(delta, &splitter, a);
                let k0 = wit.len();
                for c in 0..k0
                    invariant
                        m == st@.len(),
                        facts_ok(d, st@, syms@, delta@, acc@),
                        forall|i: int, b: int| 0 <= i < st@.len() && 0 <= b < syms@.len() ==> bounded_opt(#[trigger] delta@[i]@[b], st@.len() as int),
                        part_ok(cls@, wit@, m as nat),
                        sep_ok(d, st@, cls@),
                        queue_ok(queue@, cls@),
                        qh <= queue.len(),
                        splitter@.len() == m,
                        forall|i: int, j: int| 0 <= i < m && 0 <= j < m && cls@[i] == cls@[j] ==> splitter@[i] == splitter@[j],
                        k0 <= wit.len(),
                        a < syms.len(),
                        pred@.len() == m,
                        forall|i: int| 0 <= i < m ==> #[trigger] pred@[i] == match delta@[i]@[a as int] {
                            Some(t) => splitter@[t as int],
                            None => false,
                        },
                        k_start <= wit.len(),
                        q_start <= queue.len(),
                        wit.len() == k_start ==> queue.len() == q_start,
                {
                    proof {
                        lemma_pred_justified(d, st@, syms@, delta@, cls@, splitter@, a as int, pred@);
                    }
                    let ghost old_cls = cls@;
                    let ghost old_k = wit.len();
                    let ghost old_q = queue.len();
                    if try_split(&mut cls, &mut wit, &mut queue, c, &pred) {
                        proof {
                            lemma_split_sep(d, st@, old_cls, cls@, c, pred@, old_k as usize);
                            assert forall|i: int, j: int| 0 <= i < m && 0 <= j < m && cls@[i] == cls@[j]
                                implies splitter@[i] == splitter@[j] by {
                                assert(old_cls[i] == old_cls[j]);
                            }
                        }
                    }
                }
            }
            proof {
                lemma_classes_bounded(cls@, wit@, m as nat);
            }
        } else {
            match find_unstable(acc, delta, &cls, &wit, syms.len()) {
                None => {
                    break;
                },
                Some((c, sel, i_in, j_out, sym)) => {
                    let ghost old_cls = cls@;
                    let ghost old_k = wit.len();
                    proof {
                        assert forall|x: int, y: int|
                            0 <= x < m && 0 <= y < m && old_cls[x] == c && old_cls[y] == c && sel@[x] && !sel@[y]
                                implies differ(d, st@[x], st@[y]) by {
                            match sym {
                                None => {
                                    assert(acc@[x] != acc@[y]);
                                    assert(separates(d, st@[x], st@[y], Seq::empty()));
                                },
                                Some(a) => {
                                    assert(bounded_opt(delta@[x]@[a as int], m as int));
                                    assert(bounded_opt(delta@[y]@[a as int], m as int));
                                    assert(bounded_opt(delta@[i_in as int]@[a as int], m as int));
                                    assert(!agrees(delta@[x]@[a as int], delta@[y]@[a as int], cls@));
                                    lemma_disagree_differ(d, st@, syms@, delta@, cls@, x, y, a as int);
                                },
                            }
                        }
                    }
                    split(&mut cls, &mut wit, &mut queue, c, &sel, i_in, j_out);
                    proof {
                        lemma_split_sep(d, st@, old_cls, cls@, c, sel@, old_k as usize);
                        lemma_classes_bounded(cls@, wit@, m as nat);
                    }
                },
            }
        }
    }
    (cls, wit)
}

/// `nrow` is `row` with every target replaced by its class.
pub open spec fn class_row_of(st: Seq<usize>, cls: Seq<usize>, row: Seq<(char, usize)>, nrow: Seq<(char, usize)>) -> bool {
    &&& nrow.len() == row.len()
    &&& forall|q: int| 0 <= q < row.len() ==> {
        &&& (#[trigger] nrow[q]).0 == row[q].0
        &&& exists|j: int| 0 <= j < st.len() && st[j] == row[q].1 && cls[j] == nrow[q].1
    }
}

fn class_row(row: &Vec<(char, usize)>, st: &Vec<usize>, cls: &Vec<usize>) -> (nrow: Vec<(char, usize)>)
    requires
        cls@.len() == st@.len(),
        forall|q: int| 0 <= q < row@.len() ==> st@.contains((#[trigger] row@[q]).1),
    ensures
        class_row_of(st@, cls@, row@, nrow@),
{
    let mut nrow: Vec<(char, usize)> = Vec::new();
    let mut q: usize = 0;
    while q < row.len()
        invariant
            q <= row@.len(),
            cls@.len() == st@.len(),
            forall|x: int| 0 <= x < row@.len() ==> st@.contains((#[trigger] row@[x]).1),
            nrow@.len() == q,
            forall|x: int| 0 <= x < q ==> {
                &&& (#[trigger] nrow@[x]).0 == row@[x].0
                &&& exists|j: int| 0 <= j < st@.len() && st@[j] == row@[x].1 && cls@[j] == nrow@[x].1
            },
        decreases row@.len() - q,
    {
        let (ch, t) = row[q];
        assert(st@.contains(row@[q as int].1));
        let j = index_of(st, t);
        let ghost n0 = nrow@;
        nrow.push((ch, cls[j]));
        proof {
            crate::bounds::lemma_push_facts(n0, (ch, cls@[j as int]));
            assert forall|x: int| 0 <= x < q + 1 implies {
                &&& (#[trigger] nrow@[x]).0 == row@[x].0
                &&& exists|j: int| 0 <= j < st@.len() && st@[j] == row@[x].1 && cls@[j] == nrow@[x].1
            } by {
                if x < q {
                    assert(nrow@[x] == n0[x]);
                } else {
                    assert(st@[j as int] == row@[x].1 && cls@[j as int] == nrow@[x].1);
                }
            }
        }
        q = q + 1;
    }
    nrow
}

/// Rebuilds the automaton over the classes: class `c` is state `c`, it copies
/// the moves of its witness with targets replaced by their classes, accepts
/// when it holds an accepting state, and the start is the start's class.
#[verifier::spinoff_prover]
fn build_minimized_dfa(source: &DFA, st: &Vec<usize>, cls: &Vec<usize>, wit: &Vec<usize>) -> (r: DFA)
    requires
        part_ok(cls@, wit@, st@.len()),
        forall|s: usize| #[trigger] st@.contains(s) <==> source.states().contains(s),
    ensures
        exists|j0: int| 0 <= j0 < st@.len() && st@[j0] == source.start && r.start == cls@[j0],
        forall|x: usize| #[trigger] r.accepts@.contains(x) <==> exists|i: int|
            0 <= i < st@.len() && source.accepts@.contains(st@[i]) && cls@[i] == x,
        forall|c: int| 0 <= c < wit@.len() ==> class_row_of(st@, cls@, source.row(st@[wit@[c] as int]), #[trigger] r.row(c as usize)),
        forall|x: usize| #[trigger] r.transitions@.contains_key(x) <==> ((x as int) < wit@.len()
            && source.row(st@[wit@[x as int] as int]).len() > 0),
{
    assert(source.states().contains(source.start));
    let j0 = index_of(st, source.start);
    let start = cls[j0];
    let mut accepts: HashSet<usize> = HashSet::new();
    for i in 0..st.len()
        invariant
            part_ok(cls@, wit@, st@.len()),
            forall|x: usize| #[trigger] accepts@.contains(x) <==> exists|q: int|
                0 <= q < i && source.accepts@.contains(st@[q]) && cls@[q] == x,
    {
        if source.accepts.contains(&st[i]) {
            accepts.insert(cls[i]);
        }
        assert forall|x: usize| #[trigger] accepts@.contains(x) <==> exists|q: int|
            0 <= q < i + 1 && source.accepts@.contains(st@[q]) && cls@[q] == x by {
            if accepts@.contains(x) && !(source.accepts@.contains(st@[i as int]) && cls@[i as int] == x) {
                let q = choose|q: int| 0 <= q < i && source.accepts@.contains(st@[q]) && cls@[q] == x;
            }
        }
    }
    let mut transitions: HashMap<usize, Vec<(char, usize)>> = HashMap::new();
    for c in 0..wit.len()
        invariant
            part_ok(cls@, wit@, st@.len()),
            forall|s: usize| #[trigger] st@.contains(s) <==> source.states().contains(s),
            forall|x: usize| #[trigger] transitions@.contains_key(x) <==> (x < c
                && source.row(st@[wit@[x as int] as int]).len() > 0),
            forall|x: int| 0 <= x < c ==> class_row_of(st@, cls@, source.row(st@[wit@[x] as int]), #[trigger] map_row(transitions@, x as usize)),
    {
        let rep = st[wit[c]];
        let ghost pre = transitions@;
        match source.transitions.get(&rep) {
            None => {
                assert(source.row(rep) =~= Seq::<(char, usize)>::empty());
                assert(map_row(transitions@, c) =~= Seq::<(char, usize)>::empty());
            },
            Some(row) => {
                assert(row@ == source.row(rep));
                assert forall|q: int| 0 <= q < row@.len() implies st@.contains((#[trigger] row@[q]).1) by {
                    assert(source.row(rep)[q].1 == row@[q].1);
                    assert(source.states().contains(row@[q].1));
                }
                let nrow = class_row(row, st, cls);
                if nrow.len() > 0 {
                    transitions.insert(c, nrow);
                } else {
                    assert(nrow@ =~= Seq::<(char, usize)>::empty());
                }
            },
        }
        assert forall|x: int| 0 <= x < c + 1 implies class_row_of(st@, cls@, source.row(st@[wit@[x] as int]), #[trigger] map_row(transitions@, x as usize)) by {
            if x < c {
                assert(map_row(transitions@, x as usize) == map_row(pre, x as usize));
            }
        }
    }
    DFA { start, accepts, transitions }
}

/// Lookup commutes with replacing targets by their classes.
proof fn lemma_class_row_lookup(st: Seq<usize>, cls: Seq<usize>, row: Seq<(char, usize)>, nrow: Seq<(char, usize)>, ch: char)
    requires
        class_row_of(st, cls, row, nrow),
        st.no_duplicates(),
    ensures
        match row_lookup(row, ch) {
            None => row_lookup(nrow, ch) is None,
            Some(t) => exists|j: int| 0 <= j < st.len() && st[j] == t && row_lookup(nrow, ch) == Some(cls[j]),
        },
{
    if exists|i: int| crate::dfa::first_hit(row, ch, i) {
        let i = choose|i: int| crate::dfa::first_hit(row, ch, i);
        assert(nrow[i].0 == row[i].0);
        assert forall|j: int| 0 <= j < i implies nrow[j].0 != ch by {
            assert(nrow[j].0 == row[j].0);
        }
        assert(crate::dfa::first_hit(nrow, ch, i));
        let i2 = choose|i2: int| crate::dfa::first_hit(nrow, ch, i2);
        crate::dfa::lemma_first_hit_unique(nrow, ch, i, i2);
        assert(nrow[i].0 == row[i].0);
    } else {
        if exists|i: int| crate::dfa::first_hit(nrow, ch, i) {
            let i = choose|i: int| crate::dfa::first_hit(nrow, ch, i);
            assert(row[i].0 == nrow[i].0);
            assert forall|j: int| 0 <= j < i implies row[j].0 != ch by {
                assert(nrow[j].0 == row[j].0);
            }
            assert(crate::dfa::first_hit(row, ch, i));
        }
    }
}

/// The rebuilt automaton moves class to class as the source moves state to state.
proof fn lemma_quotient_next(
    d: &DFA,
    r: &DFA,
    st: Seq<usize>,
    syms: Seq<char>,
    delta: Seq<Vec<Option<usize>>>,
    acc: Seq<bool>,
    cls: Seq<usize>,
    wit: Seq<usize>,
    q: int,
    ch: char,
)
    requires
        st.no_duplicates(),
        forall|c: char| #[trigger] syms.contains(c) <==> dfa_alphabet(d).contains(c),
        facts_ok(d, st, syms, delta, acc),
        part_ok(cls, wit, st.len()),
        forall|i: int| 0 <= i < st.len() ==> #[trigger] settled(acc, delta, cls, wit, syms.len(), i),
        forall|c: int| 0 <= c < wit.len() ==> class_row_of(st, cls, d.row(st[wit[c] as int]), #[trigger] r.row(c as usize)),
        0 <= q < st.len(),
    ensures
        match d.next(st[q], ch) {
            None => r.next(cls[q], ch) is None,
            Some(t) => exists|j: int| 0 <= j < st.len() && st[j] == t && r.next(cls[q], ch) == Some(cls[j]),
        },
{
    let c = cls[q] as int;
    let w = wit[c] as int;
    assert(class_row_of(st, cls, d.row(st[w]), r.row(c as usize)));
    lemma_class_row_lookup(st, cls, d.row(st[w]), r.row(cls[q]), ch);
    if syms.contains(ch) {
        let a = choose|a: int| 0 <= a < syms.len() && syms[a] == ch;
        assert(settled(acc, delta, cls, wit, syms.len(), q));
        assert(agrees(delta[q]@[a], delta[w]@[a], cls));
        assert(delta_ok(d, st, q, syms[a], delta[q]@[a]));
        assert(delta_ok(d, st, w, syms[a], delta[w]@[a]));
        if let Some(tw) = d.next(st[w], ch) {
            let j = choose|j: int| 0 <= j < st.len() && st[j] == tw && r.next(cls[q], ch) == Some(cls[j]);
            let jw = delta[w]@[a]->0 as int;
            assert(st[jw] == tw);
            assert(j == jw);
            let jq = delta[q]@[a]->0 as int;
            assert(cls[jq] == cls[jw]);
            assert(st[jq] == d.next(st[q], ch)->0);
        }
    } else {
        lemma_next_outside_alphabet(d, st[q], ch);
        lemma_next_outside_alphabet(d, st[w], ch);
    }
}

proof fn lemma_quotient_run(
    d: &DFA,
    r: &DFA,
    st: Seq<usize>,
    syms: Seq<char>,
    delta: Seq<Vec<Option<usize>>>,
    acc: Seq<bool>,
    cls: Seq<usize>,
    wit: Seq<usize>,
    q: int,
    w: Seq<char>,
)
    requires
        st.no_duplicates(),
        forall|c: char| #[trigger] syms.contains(c) <==> dfa_alphabet(d).contains(c),
        facts_ok(d, st, syms, delta, acc),
        part_ok(cls, wit, st.len()),
        forall|i: int| 0 <= i < st.len() ==> #[trigger] settled(acc, delta, cls, wit, syms.len(), i),
        forall|c: int| 0 <= c < wit.len() ==> class_row_of(st, cls, d.row(st[wit[c] as int]), #[trigger] r.row(c as usize)),
        0 <= q < st.len(),
    ensures
        match d.run_from(st[q], w) {
            None => r.run_from(cls[q], w) is None,
            Some(t) => exists|j: int| 0 <= j < st.len() && st[j] == t && r.run_from(cls[q], w) == Some(cls[j]),
        },
    decreases w.len(),
{
    if w.len() > 0 {
        lemma_quotient_run(d, r, st, syms, delta, acc, cls, wit, q, w.drop_last());
        if let Some(t) = d.run_from(st[q], w.drop_last()) {
            let j = choose|j: int| 0 <= j < st.len() && st[j] == t && r.run_from(cls[q], w.drop_last()) == Some(cls[j]);
            lemma_quotient_next(d, r, st, syms, delta, acc, cls, wit, j, w.last());
        }
    }
}

/// What minimization guarantees of `r` against `d`: the same language; an
/// input runs to completion in `r` exactly when it does in `d`; inputs that
/// end in one state of `d` end in one state of `r`; any two states of `r`
/// reached by inputs differ; and `r` mentions fewer ids than `d` has states.
pub open spec fn minimizes(d: &DFA, r: &DFA) -> bool {
    &&& forall|w: Seq<char>| #[trigger] r.accepts_word(w) == d.accepts_word(w)
    &&& forall|w: Seq<char>| (#[trigger] r.run(w) is Some) == (d.run(w) is Some)
    &&& forall|w1: Seq<char>, w2: Seq<char>|
        #[trigger] d.run(w1) is Some && d.run(w1) == #[trigger] d.run(w2) ==> r.run(w1) == r.run(w2)
    &&& forall|w1: Seq<char>, w2: Seq<char>|
        #[trigger] r.run(w1) is Some && #[trigger] r.run(w2) is Some && r.run(w1) != r.run(w2)
            ==> differ(r, r.run(w1)->0, r.run(w2)->0)
    &&& forall|s: usize| #[trigger] r.states().contains(s) ==> (s as int) < d.states().len()
    &&& exists|h: Map<usize, usize>| class_map(d, r, h)
    &&& forall|x: usize| #[trigger] r.transitions@.contains_key(x) ==> r.row(x).len() > 0
    &&& forall|p: usize, q: usize|
        #[trigger] r.states().contains(p) && #[trigger] r.states().contains(q) && p != q ==> differ(r, p, q)
}

/// `h` sends every state `d` mentions to its class in `r`: the start to the
/// start, accepting states exactly to accepting states, a move to the move
/// between the classes (a missing move stays missing), and every state `r`
/// mentions is the class of one of them.
pub open spec fn class_map(d: &DFA, r: &DFA, h: Map<usize, usize>) -> bool {
    &&& h.dom() == d.states()
    &&& h[d.start] == r.start
    &&& forall|s: usize| #[trigger] h.dom().contains(s) ==> {
        &&& r.accepts@.contains(h[s]) == d.accepts@.contains(s)
        &&& forall|c: char| match #[trigger] d.next(s, c) {
            None => r.next(h[s], c) is None,
            Some(t) => h.dom().contains(t) && r.next(h[s], c) == Some(h[t]),
        }
    }
    &&& forall|x: usize| #[trigger] r.states().contains(x) ==> exists|s: usize| h.dom().contains(s) && h[s] == x
}

/// Two classes differ in the rebuilt automaton when their members differ in the source.
proof fn lemma_classes_differ(
    d: &DFA,
    r: &DFA,
    st: Seq<usize>,
    syms: Seq<char>,
    delta: Seq<Vec<Option<usize>>>,
    acc: Seq<bool>,
    cls: Seq<usize>,
    wit: Seq<usize>,
    j1: int,
    j2: int,
)
    requires
        st.no_duplicates(),
        forall|c: char| #[trigger] syms.contains(c) <==> dfa_alphabet(d).contains(c),
        facts_ok(d, st, syms, delta, acc),
        part_ok(cls, wit, st.len()),
        sep_ok(d, st, cls),
        forall|i: int| 0 <= i < st.len() ==> #[trigger] settled(acc, delta, cls, wit, syms.len(), i),
        forall|c: int| 0 <= c < wit.len() ==> class_row_of(st, cls, d.row(st[wit[c] as int]), #[trigger] r.row(c as usize)),
        forall|j: int| 0 <= j < st.len() ==> #[trigger] r.accepts@.contains(cls[j]) == acc[j],
        0 <= j1 < st.len(),
        0 <= j2 < st.len(),
        cls[j1] != cls[j2],
    ensures
        differ(r, cls[j1], cls[j2]),
{
    assert(differ(d, st[j1], st[j2]));
    let v = choose|v: Seq<char>| #[trigger] separates(d, st[j1], st[j2], v);
    lemma_quotient_run(d, r, st, syms, delta, acc, cls, wit, j1, v);
    lemma_quotient_run(d, r, st, syms, delta, acc, cls, wit, j2, v);
    if let Some(x) = d.run_from(st[j1], v) {
        let k1 = choose|j: int| 0 <= j < st.len() && st[j] == x && r.run_from(cls[j1], v) == Some(cls[j]);
        assert(acc[k1] == d.accepts@.contains(x));
    }
    if let Some(y) = d.run_from(st[j2], v) {
        let k2 = choose|j: int| 0 <= j < st.len() && st[j] == y && r.run_from(cls[j2], v) == Some(cls[j]);
        assert(acc[k2] == d.accepts@.contains(y));
    }
    assert(separates(r, cls[j1], cls[j2], v));
}

/// Minimizes a DFA by partition refinement: states that no input tells apart
/// (by acceptance, or by a move that one has and the other lacks) end in one
/// class, each class becomes one state numbered by its index. The result
/// accepts exactly the inputs the source accepts and has at most as many
/// states.
#[verifier::spinoff_prover]
pub fn minimize_dfa(dfa: &DFA) -> (r: DFA)
    ensures
        minimizes(dfa, &r),
{
    let st = collect_states(dfa);
    let syms = collect_dfa_symbols(dfa, &st);
    let delta = build_delta(dfa, &st, &syms);
    let acc = accept_flags(dfa, &st);
    assert(st@.contains(dfa.start));
    let (cls, wit) = refine(dfa, &st, &syms, &delta, &acc);
    let r = build_minimized_dfa(dfa, &st, &cls, &wit);
    let m = st.len();
    proof {
        let j0 = choose|j0: int| 0 <= j0 < st@.len() && st@[j0] == dfa.start && r.start == cls@[j0];
        assert forall|j: int| 0 <= j < st@.len() implies #[trigger] r.accepts@.contains(cls@[j]) == acc@[j] by {
            assert(settled(acc@, delta@, cls@, wit@, syms@.len(), j));
            if r.accepts@.contains(cls@[j]) {
                let i = choose|i: int| 0 <= i < st@.len() && dfa.accepts@.contains(st@[i]) && cls@[i] == cls@[j];
                assert(settled(acc@, delta@, cls@, wit@, syms@.len(), i));
                assert(acc@[i]);
            }
        }
        assert forall|w: Seq<char>| #[trigger] r.accepts_word(w) == dfa.accepts_word(w) by {
            lemma_quotient_run(dfa, &r, st@, syms@, delta@, acc@, cls@, wit@, j0, w);
            if let Some(t) = dfa.run(w) {
                let j = choose|j: int| 0 <= j < st@.len() && st@[j] == t && r.run(w) == Some(cls@[j]);
                assert(acc@[j] == dfa.accepts@.contains(t));
            }
        }
        assert forall|w: Seq<char>| (#[trigger] r.run(w) is Some) == (dfa.run(w) is Some) by {
            lemma_quotient_run(dfa, &r, st@, syms@, delta@, acc@, cls@, wit@, j0, w);
        }
        assert forall|w1: Seq<char>, w2: Seq<char>|
            #[trigger] dfa.run(w1) is Some && dfa.run(w1) == #[trigger] dfa.run(w2) implies r.run(w1) == r.run(w2) by {
            lemma_quotient_run(dfa, &r, st@, syms@, delta@, acc@, cls@, wit@, j0, w1);
            lemma_quotient_run(dfa, &r, st@, syms@, delta@, acc@, cls@, wit@, j0, w2);
            let t = dfa.run(w1)->0;
            let j1 = choose|j: int| 0 <= j < st@.len() && st@[j] == t && r.run(w1) == Some(cls@[j]);
            let j2 = choose|j: int| 0 <= j < st@.len() && st@[j] == t && r.run(w2) == Some(cls@[j]);
            assert(j1 == j2);
        }
        assert forall|w1: Seq<char>, w2: Seq<char>|
            #[trigger] r.run(w1) is Some && #[trigger] r.run(w2) is Some && r.run(w1) != r.run(w2)
                implies differ(&r, r.run(w1)->0, r.run(w2)->0) by {
            lemma_quotient_run(dfa, &r, st@, syms@, delta@, acc@, cls@, wit@, j0, w1);
            lemma_quotient_run(dfa, &r, st@, syms@, delta@, acc@, cls@, wit@, j0, w2);
            let j1 = choose|j: int| 0 <= j < st@.len() && st@[j] == dfa.run(w1)->0 && r.run(w1) == Some(cls@[j]);
            let j2 = choose|j: int| 0 <= j < st@.len() && st@[j] == dfa.run(w2)->0 && r.run(w2) == Some(cls@[j]);
            assert(cls@[j1] != cls@[j2]);
            assert(differ(dfa, st@[j1], st@[j2]));
            let v = choose|v: Seq<char>| #[trigger] separates(dfa, st@[j1], st@[j2], v);
            lemma_quotient_run(dfa, &r, st@, syms@, delta@, acc@, cls@, wit@, j1, v);
            lemma_quotient_run(dfa, &r, st@, syms@, delta@, acc@, cls@, wit@, j2, v);
            if let Some(x) = dfa.run_from(st@[j1], v) {
                let k1 = choose|j: int| 0 <= j < st@.len() && st@[j] == x && r.run_from(cls@[j1], v) == Some(cls@[j]);
                assert(acc@[k1] == dfa.accepts@.contains(x));
            }
            if let Some(y) = dfa.run_from(st@[j2], v) {
                let k2 = choose|j: int| 0 <= j < st@.len() && st@[j] == y && r.run_from(cls@[j2], v) == Some(cls@[j]);
                assert(acc@[k2] == dfa.accepts@.contains(y));
            }
            assert(separates(&r, cls@[j1], cls@[j2], v));
        }
        st@.unique_seq_to_set();
        assert(st@.to_set() =~= dfa.states());
        lemma_classes_bounded(cls@, wit@, st@.len());
        assert forall|s: usize| #[trigger] r.states().contains(s) implies (s as int) < dfa.states().len() by {
            if r.accepts@.contains(s) {
                let i = choose|i: int| 0 <= i < st@.len() && dfa.accepts@.contains(st@[i]) && cls@[i] == s;
            } else if s != r.start && !r.transitions@.contains_key(s) {
                let (u, k) = choose|u: usize, k: int| 0 <= k < r.row(u).len() && #[trigger] r.row(u)[k].1 == s;
                assert(r.transitions@.contains_key(u));
                assert((u as int) < wit@.len());
                assert(r.row((u as int) as usize) == r.row(u));
                assert(class_row_of(st@, cls@, dfa.row(st@[wit@[u as int] as int]), r.row(u)));
                let j = choose|j: int| 0 <= j < st@.len() && st@[j] == dfa.row(st@[wit@[u as int] as int])[k].1 && cls@[j] == r.row(u)[k].1;
            }
        }
        assert forall|x: usize| #[trigger] r.states().contains(x) implies exists|j: int| 0 <= j < st@.len() && cls@[j] == x by {
            if x == r.start {
            } else if r.accepts@.contains(x) {
                let i = choose|i: int| 0 <= i < st@.len() && dfa.accepts@.contains(st@[i]) && cls@[i] == x;
            } else if r.transitions@.contains_key(x) {
                assert(cls@[wit@[x as int] as int] == x);
            } else {
                let (u, k) = choose|u: usize, k: int| 0 <= k < r.row(u).len() && #[trigger] r.row(u)[k].1 == x;
                assert(r.transitions@.contains_key(u));
                assert(r.row((u as int) as usize) == r.row(u));
                assert(class_row_of(st@, cls@, dfa.row(st@[wit@[u as int] as int]), r.row(u)));
                let j = choose|j: int| 0 <= j < st@.len() && st@[j] == dfa.row(st@[wit@[u as int] as int])[k].1 && cls@[j] == r.row(u)[k].1;
            }
        }
        assert forall|p: usize, q: usize|
            #[trigger] r.states().contains(p) && #[trigger] r.states().contains(q) && p != q implies differ(&r, p, q) by {
            let j1 = choose|j: int| 0 <= j < st@.len() && cls@[j] == p;
            let j2 = choose|j: int| 0 <= j < st@.len() && cls@[j] == q;
            lemma_classes_differ(dfa, &r, st@, syms@, delta@, acc@, cls@, wit@, j1, j2);
        }
        let idx = |s: usize| choose|j: int| 0 <= j < st@.len() && st@[j] == s;
        let h = Map::new(|s: usize| dfa.states().contains(s), |s: usize| cls@[idx(s)]);
        assert(h.dom() =~= dfa.states());
        assert forall|s: usize| #[trigger] h.dom().contains(s) implies {
            &&& r.accepts@.contains(h[s]) == dfa.accepts@.contains(s)
            &&& forall|c: char| match #[trigger] dfa.next(s, c) {
                None => r.next(h[s], c) is None,
                Some(t) => h.dom().contains(t) && r.next(h[s], c) == Some(h[t]),
            }
        } by {
            assert(st@.contains(s));
            let j = idx(s);
            assert(acc@[j] == dfa.accepts@.contains(st@[j]));
            assert forall|c: char| match #[trigger] dfa.next(s, c) {
                None => r.next(h[s], c) is None,
                Some(t) => h.dom().contains(t) && r.next(h[s], c) == Some(h[t]),
            } by {
                lemma_quotient_next(dfa, &r, st@, syms@, delta@, acc@, cls@, wit@, j, c);
                if let Some(t) = dfa.next(s, c) {
                    lemma_next_in_states(dfa, s, c);
                    let j2 = choose|j2: int| 0 <= j2 < st@.len() && st@[j2] == t && r.next(cls@[j], c) == Some(cls@[j2]);
                    assert(st@.contains(t));
                    let jt = idx(t);
                    assert(st@[jt] == t);
                    assert(jt == j2);
                }
            }
        }
        assert(st@.contains(dfa.start));
        assert(st@[idx(dfa.start)] == dfa.start);
        assert(st@[j0] == dfa.start);
        assert(idx(dfa.start) == j0);
        assert forall|x: usize| #[trigger] r.states().contains(x) implies exists|s: usize| h.dom().contains(s) && h[s] == x by {
            let j = choose|j: int| 0 <= j < st@.len() && cls@[j] == x;
            let s0 = st@[j];
            assert(st@.contains(s0));
            assert(st@[idx(s0)] == s0);
            assert(idx(s0) == j);
            assert(h.dom().contains(s0) && h[s0] == x);
        }
        assert(class_map(dfa, &r, h));
        assert forall|x: usize| #[trigger] r.transitions@.contains_key(x) implies r.row(x).len() > 0 by {
            assert(r.row((x as int) as usize) == r.row(x));
            assert(class_row_of(st@, cls@, dfa.row(st@[wit@[x as int] as int]), r.row(x)));
        }
    }
    r
}

/// Reading `u` then `v` from `s`.
pub proof fn lemma_run_concat(d: &DFA, s: usize, u: Seq<char>, v: Seq<char>)
    ensures
        d.run_from(s, u + v) == match d.run_from(s, u) {
            Some(t) => d.run_from(t, v),
            None => None,
        },
    decreases v.len(),
{
    if v.len() == 0 {
        assert(u + v =~= u);
    } else {
        assert((u + v).drop_last() =~= u + v.drop_last());
        assert((u + v).last() == v.last());
        lemma_run_concat(d, s, u, v.drop_last());
    }
}

/// Every reachable state is a state the automaton mentions.
proof fn lemma_reachable_mentioned(d: &DFA, w: Seq<char>)
    ensures
        d.run(w) matches Some(s) ==> d.states().contains(s),
    decreases w.len(),
{
    if w.len() > 0 {
        lemma_reachable_mentioned(d, w.drop_last());
        if d.run(w) is Some {
            let t = d.run(w.drop_last())->0;
            lemma_next_in_states(d, t, w.last());
        }
    }
}

proof fn lemma_below_finite_any(n: nat)
    ensures
        crate::bounds::below(n).finite(),
{
    if n <= usize::MAX + 1 {
        crate::bounds::lemma_below_finite(n);
    } else {
        crate::bounds::lemma_below_finite((usize::MAX + 1) as nat);
        assert(crate::bounds::below(n) =~= crate::bounds::below((usize::MAX + 1) as nat));
    }
}

/// Minimizing a minimized automaton again leaves the number of reachable
/// states as it is.
#[verifier::spinoff_prover]
pub proof fn lemma_minimize_idempotent(d: &DFA, m1: &DFA, m2: &DFA)
    requires
        minimizes(d, m1),
        minimizes(m1, m2),
    ensures
        m2.reachable().len() == m1.reachable().len(),
{
    let x = m1.reachable();
    let y = m2.reachable();
    assert forall|s: usize| x.contains(s) implies crate::bounds::below(d.states().len()).contains(s) by {
        let w = choose|w: Seq<char>| #[trigger] m1.run(w) == Some(s);
        lemma_reachable_mentioned(m1, w);
    }
    lemma_below_finite_any(d.states().len());
    vstd::set_lib::lemma_len_subset(x, crate::bounds::below(d.states().len()));
    let f = |s: usize| m2.run(choose|w: Seq<char>| #[trigger] m1.run(w) == Some(s))->0;
    assert forall|t: usize| #[trigger] x.map(f).contains(t) <==> y.contains(t) by {
        if x.map(f).contains(t) {
            let s = choose|s: usize| x.contains(s) && t == f(s);
            let w = choose|w: Seq<char>| #[trigger] m1.run(w) == Some(s);
            assert(m2.run(w) is Some);
            assert(m2.run(w) == Some(t));
        }
        if y.contains(t) {
            let w = choose|w: Seq<char>| #[trigger] m2.run(w) == Some(t);
            assert(m1.run(w) is Some);
            let s = m1.run(w)->0;
            assert(x.contains(s));
            let ws = choose|w: Seq<char>| #[trigger] m1.run(w) == Some(s);
            assert(m1.run(ws) == m1.run(w));
            assert(m2.run(ws) == m2.run(w));
            assert(f(s) == t);
        }
    }
    assert(x.map(f) =~= y);
    assert forall|s1: usize, s2: usize| x.contains(s1) && x.contains(s2) && #[trigger] f(s1) == #[trigger] f(s2) implies s1 == s2 by {
        let w1 = choose|w: Seq<char>| #[trigger] m1.run(w) == Some(s1);
        let w2 = choose|w: Seq<char>| #[trigger] m1.run(w) == Some(s2);
        assert(m2.run(w1) is Some && m2.run(w2) is Some);
        assert(m2.run(w1) == m2.run(w2));
        if s1 != s2 {
            assert(differ(m1, s1, s2));
            let v = choose|v: Seq<char>| #[trigger] separates(m1, s1, s2, v);
            lemma_run_concat(m1, m1.start, w1, v);
            lemma_run_concat(m1, m1.start, w2, v);
            lemma_run_concat(m2, m2.start, w1, v);
            lemma_run_concat(m2, m2.start, w2, v);
            assert(m2.run(w1 + v) == m2.run(w2 + v));
            assert((m1.run(w1 + v) is Some) == (m2.run(w1 + v) is Some));
            assert((m1.run(w2 + v) is Some) == (m2.run(w2 + v) is Some));
            assert(m1.accepts_word(w1 + v) == m2.accepts_word(w1 + v));
            assert(m1.accepts_word(w2 + v) == m2.accepts_word(w2 + v));
        }
    }
    vstd::set_lib::lemma_map_size(x, y, f);
}

} // verus!
