//! Depth-first renumbering of the states reachable from the start.
use crate::nfa::{StateID, TransitionLabel, NFA};
use std::collections::HashMap;
use vstd::prelude::*;

verus! {

broadcast use vstd::std_specs::hash::group_hash_axioms;

/// The edges of `edges` with every target renamed by `f`.
pub open spec fn renamed_edges(edges: Seq<(TransitionLabel, usize)>, f: Seq<Option<usize>>) -> Seq<(TransitionLabel, usize)> {
    edges.map_values(|e: (TransitionLabel, usize)| (e.0, f[e.1 as int]->0))
}

/// `f` renames the states of `nfa` that it maps onto the states of `r`,
/// one to one, starting from the start state (id 0): each renamed state
/// keeps its edges, in order, with renamed targets, and keeps whether it accepts.
pub open spec fn renaming(nfa: &NFA, r: &NFA, f: Seq<Option<usize>>) -> bool {
    &&& f.len() == nfa.n()
    &&& f[nfa.start as int] == Some(0usize)
    &&& forall|x: int, z: int| 0 <= x < f.len() && 0 <= z < f.len() && #[trigger] f[x] is Some && f[x] == #[trigger] f[z] ==> x == z
    &&& forall|y: usize| #[trigger] r.transitions@.contains_key(y) ==> exists|x: int| 0 <= x < f.len() && f[x] == Some(y)
    &&& forall|x: int| 0 <= x < f.len() && #[trigger] f[x] is Some ==> {
        &&& (f[x]->0 as int) < r.n()
        &&& forall|i: int| 0 <= i < nfa.edges(x as usize).len() ==> f[(#[trigger] nfa.edges(x as usize)[i]).1 as int] is Some
        &&& r.edges(f[x]->0) == renamed_edges(nfa.edges(x as usize), f)
    }
    &&& forall|y: usize| #[trigger] r.accept_set().contains(y) <==> exists|x: int|
        0 <= x < f.len() && f[x] == Some(y) && nfa.accept_set().contains(x as usize)
}

/// State `order[t]` is reached by an edge from a state numbered before `t`.
pub open spec fn discovered_from(nfa: &NFA, f: Seq<Option<usize>>, order: Seq<usize>, t: int) -> bool {
    exists|x: int, i: int|
        0 <= x < nfa.n() && f[x] is Some && (f[x]->0 as int) < t && 0 <= i < nfa.edges(x as usize).len()
            && (#[trigger] nfa.edges(x as usize)[i]).1 == order[t]
}

/// Renumbers the states reachable from the start in depth-first order (the
/// start becomes 0, a state's first edge is explored first), dropping the
/// states that cannot be reached.
#[verifier::spinoff_prover]
pub fn renumber_dfs(nfa: &NFA) -> (r: NFA)
    requires
        nfa.wf(),
    ensures
        r.wf(),
        r.start == 0,
        exists|f: Seq<Option<usize>>| renaming(nfa, &r, f),
        forall|k: usize| 1 <= k < r.n() ==> #[trigger] crate::epsilon_elimination::entered_from_before(&r, k),
{
    let n = nfa.transitions.len();
    let mut old_to_new: Vec<Option<StateID>> = Vec::new();
    for i in 0..n
        invariant
            old_to_new@.len() == i,
            forall|x: int| 0 <= x < i ==> old_to_new@[x] is None,
    {
        old_to_new.push(None);
    }
    let mut order: Vec<StateID> = Vec::new();
    let mut stack: Vec<StateID> = Vec::new();
    old_to_new.set(nfa.start, Some(0));
    order.push(nfa.start);
    stack.push(nfa.start);
    proof {
        assert(stack@[0] == nfa.start);
        assert forall|x: int| 0 <= x < n && #[trigger] old_to_new@[x] is Some implies x == nfa.start as int by {
            if x != nfa.start as int {
                assert(old_to_new@[x] is None);
            }
        }
        assert(stack@.contains(nfa.start));
    }
    while stack.len() > 0
        invariant
            nfa.wf(),
            n as int == nfa.n(),
            old_to_new@.len() == n,
            order@.len() <= n,
            order@.len() >= 1,
            order@[0] == nfa.start,
            stack@.no_duplicates(),
            forall|t: int| 1 <= t < order@.len() ==> #[trigger] discovered_from(nfa, old_to_new@, order@, t),
            forall|t: int| 0 <= t < order@.len() ==> (#[trigger] order@[t] as int) < n && old_to_new@[order@[t] as int] == Some(t as usize),
            forall|x: int| 0 <= x < n && #[trigger] old_to_new@[x] is Some ==> (old_to_new@[x]->0 as int) < order@.len() && order@[old_to_new@[x]->0 as int] == x,
            forall|k: int| 0 <= k < stack@.len() ==> (#[trigger] stack@[k] as int) < n && old_to_new@[stack@[k] as int] is Some,
            forall|x: int| 0 <= x < n && #[trigger] old_to_new@[x] is Some && !stack@.contains(x as usize) ==> forall|i: int|
                0 <= i < nfa.edges(x as usize).len() ==> old_to_new@[(#[trigger] nfa.edges(x as usize)[i]).1 as int] is Some,
        decreases n - order@.len(), stack@.len(),
    {
        let ghost st0 = stack@;
        let current = stack.pop().unwrap();
        assert(stack@ == st0.drop_last());
        assert(!stack@.contains(current)) by {
            if stack@.contains(current) {
                let k = choose|k: int| 0 <= k < stack@.len() && stack@[k] == current;
                assert(st0[k] == st0[st0.len() - 1]);
            }
        }
        let edges = nfa.transitions.get(&current).unwrap();
        assert(edges@ == nfa.edges(current));
        assert forall|x: usize| #[trigger] st0.contains(x) implies x == current || stack@.contains(x) by {
            let k = choose|k: int| 0 <= k < st0.len() && st0[k] == x;
            if k < st0.len() - 1 {
                assert(stack@[k] == x);
            }
        }
        let ghost o_pop = order@.len();
        let ghost s_pop = stack@.len();
        let mut j: usize = edges.len();
        while j > 0
            invariant
                nfa.wf(),
                n as int == nfa.n(),
                edges@ == nfa.edges(current),
                (current as int) < n,
                old_to_new@[current as int] is Some,
                !stack@.contains(current),
                stack@.no_duplicates(),
                j <= edges@.len(),
                old_to_new@.len() == n,
                order@.len() <= n,
                order@.len() >= 1,
                order@[0] == nfa.start,
                forall|t: int| 1 <= t < order@.len() ==> #[trigger] discovered_from(nfa, old_to_new@, order@, t),
                forall|t: int| 0 <= t < order@.len() ==> (#[trigger] order@[t] as int) < n && old_to_new@[order@[t] as int] == Some(t as usize),
                forall|x: int| 0 <= x < n && #[trigger] old_to_new@[x] is Some ==> (old_to_new@[x]->0 as int) < order@.len() && order@[old_to_new@[x]->0 as int] == x,
                forall|k: int| 0 <= k < stack@.len() ==> (#[trigger] stack@[k] as int) < n && old_to_new@[stack@[k] as int] is Some,
                forall|x: int| 0 <= x < n && #[trigger] old_to_new@[x] is Some && !stack@.contains(x as usize) && x != current ==> forall|i: int|
                    0 <= i < nfa.edges(x as usize).len() ==> old_to_new@[(#[trigger] nfa.edges(x as usize)[i]).1 as int] is Some,
                forall|i: int| j <= i < edges@.len() ==> old_to_new@[(#[trigger] edges@[i]).1 as int] is Some,
                o_pop <= order@.len(),
                order@.len() == o_pop ==> stack@.len() == s_pop,
                s_pop < st0.len(),
            decreases j,
        {
            j = j - 1;
            let to = edges[j].1;
            assert(edges@[j as int].1 == to);
            assert((to as int) < n);
            if old_to_new[to].is_none() {
                let id = order.len();
                proof {
                    assert forall|t1: int, t2: int| 0 <= t1 < order@.len() && 0 <= t2 < order@.len() && t1 != t2
                        implies order@[t1] != order@[t2] by {
                        assert(old_to_new@[order@[t1] as int] == Some(t1 as usize));
                        assert(old_to_new@[order@[t2] as int] == Some(t2 as usize));
                    }
                    let o2 = order@.push(to);
                    assert forall|t1: int, t2: int| 0 <= t1 < o2.len() && 0 <= t2 < o2.len() && t1 != t2
                        implies o2[t1] != o2[t2] by {
                        if t1 < order@.len() && t2 < order@.len() {
                        } else if t1 < order@.len() {
                            assert(old_to_new@[order@[t1] as int] == Some(t1 as usize));
                        } else {
                            assert(old_to_new@[order@[t2] as int] == Some(t2 as usize));
                        }
                    }
                    assert forall|t: int| 0 <= t < o2.len() implies (#[trigger] o2[t] as nat) < n by {}
                    crate::bounds::lemma_distinct_below(o2, n as nat);
                }
                let ghost s0 = stack@;
                let ghost f0 = old_to_new@;
                let ghost o0 = order@;
                old_to_new.set(to, Some(id));
                order.push(to);
                stack.push(to);
                proof {
                    crate::bounds::lemma_push_facts(o0, to);
                    assert forall|t: int| 1 <= t < order@.len() implies #[trigger] discovered_from(nfa, old_to_new@, order@, t) by {
                        if t < o0.len() {
                            assert(discovered_from(nfa, f0, o0, t));
                            let (x, i) = choose|x: int, i: int| 0 <= x < n && f0[x] is Some && (f0[x]->0 as int) < t
                                && 0 <= i < nfa.edges(x as usize).len() && (#[trigger] nfa.edges(x as usize)[i]).1 == o0[t];
                            assert(x != to as int);
                            assert(old_to_new@[x] == f0[x]);
                            assert(order@[t] == o0[t]);
                        } else {
                            let x = current as int;
                            assert(x != to as int);
                            assert(old_to_new@[x] == f0[x]);
                            assert((f0[x]->0 as int) < o0.len());
                            assert(nfa.edges(current)[j as int].1 == to);
                            assert(0 <= x < n && old_to_new@[x] is Some && (old_to_new@[x]->0 as int) < t
                                && 0 <= j < nfa.edges(x as usize).len() && nfa.edges(x as usize)[j as int].1 == order@[t]);
                        }
                    }
                    assert(!s0.contains(to)) by {
                        if s0.contains(to) {
                            let k = choose|k: int| 0 <= k < s0.len() && s0[k] == to;
                        }
                    }
                    assert forall|k: int| 0 <= k < stack@.len() implies (#[trigger] stack@[k] as int) < n && old_to_new@[stack@[k] as int] is Some by {
                        if k < s0.len() {
                            assert(stack@[k] == s0[k]);
                        }
                    }
                    assert forall|x: usize| #[trigger] s0.contains(x) implies stack@.contains(x) by {
                        let k = choose|k: int| 0 <= k < s0.len() && s0[k] == x;
                        assert(stack@[k] == x);
                    }
                    assert(stack@[s0.len() as int] == to);
                }
            }
        }
    }
    let count = order.len();
    let mut transitions: HashMap<StateID, Vec<(TransitionLabel, StateID)>> = HashMap::new();
    for t in 0..count
        invariant
            nfa.wf(),
            n as int == nfa.n(),
            count == order@.len(),
            old_to_new@.len() == n,
            forall|u: int| 0 <= u < order@.len() ==> (#[trigger] order@[u] as int) < n && old_to_new@[order@[u] as int] == Some(u as usize),
            forall|x: int| 0 <= x < n && #[trigger] old_to_new@[x] is Some ==> forall|i: int|
                0 <= i < nfa.edges(x as usize).len() ==> old_to_new@[(#[trigger] nfa.edges(x as usize)[i]).1 as int] is Some,
            forall|y: usize| #[trigger] transitions@.contains_key(y) <==> y < t,
            forall|y: usize| y < t ==> (#[trigger] transitions@[y])@ == renamed_edges(nfa.edges(order@[y as int]), old_to_new@),
    {
        let s = order[t];
        let edges = nfa.transitions.get(&s).unwrap();
        assert(edges@ == nfa.edges(s));
        let mut row: Vec<(TransitionLabel, StateID)> = Vec::new();
        for i in 0..edges.len()
            invariant
                edges@ == nfa.edges(s),
                old_to_new@.len() == n,
                (s as int) < n,
                old_to_new@[s as int] is Some,
                forall|x: int| 0 <= x < n && #[trigger] old_to_new@[x] is Some ==> forall|i: int|
                    0 <= i < nfa.edges(x as usize).len() ==> old_to_new@[(#[trigger] nfa.edges(x as usize)[i]).1 as int] is Some,
                forall|i: int| 0 <= i < edges@.len() ==> ((#[trigger] edges@[i]).1 as int) < n,
                row@ == renamed_edges(edges@.take(i as int), old_to_new@),
        {
            let (label, x) = edges[i];
            assert(edges@[i as int] == (label, x));
            assert(nfa.edges(s)[i as int].1 == x);
            assert(nfa.edges((s as int) as usize)[i as int].1 == x);
            assert(old_to_new@[x as int] is Some);
            let y = old_to_new[x].unwrap();
            row.push((label, y));
            assert(edges@.take(i + 1) =~= edges@.take(i as int).push((label, x)));
            assert(row@ =~= renamed_edges(edges@.take(i + 1), old_to_new@));
        }
        assert(edges@.take(edges@.len() as int) =~= edges@);
        let ghost pre = transitions@;
        transitions.insert(t, row);
        assert forall|y: usize| y < t + 1 implies (#[trigger] transitions@[y])@ == renamed_edges(nfa.edges(order@[y as int]), old_to_new@) by {
            if y < t {
                assert(transitions@[y] == pre[y]);
            }
        }
    }
    let mut accept: Vec<StateID> = Vec::new();
    for k in 0..nfa.accept.len()
        invariant
            old_to_new@.len() == n,
            forall|y: usize| #[trigger] accept@.contains(y) <==> exists|p: int|
                0 <= p < k && (nfa.accept@[p] as int) < n && #[trigger] old_to_new@[nfa.accept@[p] as int] == Some(y),
    {
        let a = nfa.accept[k];
        let ghost pre = accept@;
        if a < n {
            if let Some(y) = old_to_new[a] {
                accept.push(y);
            }
        }
        proof {
            assert forall|y: usize| #[trigger] accept@.contains(y) <==> exists|p: int|
                0 <= p < k + 1 && (nfa.accept@[p] as int) < n && #[trigger] old_to_new@[nfa.accept@[p] as int] == Some(y) by {
                if pre.contains(y) {
                    let q = choose|q: int| 0 <= q < pre.len() && pre[q] == y;
                    assert(accept@[q] == y);
                }
                if accept@.contains(y) && !pre.contains(y) {
                    let q = choose|q: int| 0 <= q < accept@.len() && accept@[q] == y;
                    assert(q == pre.len());
                    assert(old_to_new@[nfa.accept@[k as int] as int] == Some(y));
                }
                if accept@.contains(y) && pre.contains(y) {
                    let p = choose|p: int| 0 <= p < k && (nfa.accept@[p] as int) < n && #[trigger] old_to_new@[nfa.accept@[p] as int] == Some(y);
                }
                if exists|p: int| 0 <= p < k + 1 && (nfa.accept@[p] as int) < n && #[trigger] old_to_new@[nfa.accept@[p] as int] == Some(y) {
                    let p = choose|p: int| 0 <= p < k + 1 && (nfa.accept@[p] as int) < n && #[trigger] old_to_new@[nfa.accept@[p] as int] == Some(y);
                    if p == k {
                        assert(accept@[pre.len() as int] == y);
                    }
                }
            }
        }
    }
    let r = NFA { start: 0, accept, transitions };
    proof {
        crate::bounds::lemma_dense_len(r.transitions@, count as nat);
        let f = old_to_new@;
        assert(r.dense());
        assert forall|y: usize| #[trigger] r.transitions@.contains_key(y) implies exists|x: int| 0 <= x < f.len() && f[x] == Some(y) by {
            assert(f[order@[y as int] as int] == Some(y));
        }
        assert forall|x: int| 0 <= x < f.len() && #[trigger] f[x] is Some implies {
            &&& (f[x]->0 as int) < r.n()
            &&& forall|i: int| 0 <= i < nfa.edges(x as usize).len() ==> f[(#[trigger] nfa.edges(x as usize)[i]).1 as int] is Some
            &&& r.edges(f[x]->0) == renamed_edges(nfa.edges(x as usize), f)
        } by {
            assert(order@[f[x]->0 as int] == x);
        }
        assert forall|j: usize, i: int| 0 <= i < r.edges(j).len() implies (#[trigger] r.edges(j)[i]).1 < r.n() by {
            let x = order@[j as int] as int;
            assert(f[x] == Some(j));
            assert(r.edges(j) == renamed_edges(nfa.edges(x as usize), f));
            let tgt = nfa.edges(x as usize)[i].1 as int;
            assert(f[tgt] is Some);
        }
        assert(r.wf());
        assert forall|x: int, z: int| 0 <= x < f.len() && 0 <= z < f.len() && #[trigger] f[x] is Some && f[x] == #[trigger] f[z] implies x == z by {}
        assert forall|y: usize| #[trigger] r.accept_set().contains(y) <==> exists|x: int|
            0 <= x < f.len() && f[x] == Some(y) && nfa.accept_set().contains(x as usize) by {
            if r.accept@.contains(y) {
                let p = choose|p: int| 0 <= p < nfa.accept@.len() && (nfa.accept@[p] as int) < n && #[trigger] old_to_new@[nfa.accept@[p] as int] == Some(y);
                let x = nfa.accept@[p] as int;
                assert(nfa.accept_set().contains(x as usize));
            }
            if exists|x: int| 0 <= x < f.len() && f[x] == Some(y) && nfa.accept_set().contains(x as usize) {
                let x = choose|x: int| 0 <= x < f.len() && f[x] == Some(y) && nfa.accept_set().contains(x as usize);
                let p = choose|p: int| 0 <= p < nfa.accept@.len() && nfa.accept@[p] == x as usize;
                assert(old_to_new@[nfa.accept@[p] as int] == Some(y));
                assert(accept@.contains(y));
            }
        }
        assert(renaming(nfa, &r, f));
        assert forall|k: usize| 1 <= k < r.n() implies #[trigger] crate::epsilon_elimination::entered_from_before(&r, k) by {
            assert(discovered_from(nfa, f, order@, k as int));
            let (x, i) = choose|x: int, i: int| 0 <= x < nfa.n() && f[x] is Some && (f[x]->0 as int) < k
                && 0 <= i < nfa.edges(x as usize).len() && (#[trigger] nfa.edges(x as usize)[i]).1 == order@[k as int];
            let y = f[x]->0;
            assert(r.edges(y) == renamed_edges(nfa.edges(x as usize), f));
            assert(f[order@[k as int] as int] == Some(k));
            assert(r.edges(y)[i].1 == k);
        }
    }
    r
}

} // verus!
