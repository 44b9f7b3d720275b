//! Automata with silent edges: the data type, and the set-based semantics
//! (closures, moves, simulation) the other stages are proved against.
use std::collections::HashMap;
use vstd::prelude::*;

verus! {

broadcast use vstd::std_specs::hash::group_hash_axioms;

pub type StateID = usize;

/// Label of an automaton edge: a character, or a silent (epsilon) move.
#[derive(Debug, Clone, Copy, PartialEq, Eq, Hash, Structural)]
pub enum TransitionLabel {
    Char(char),
    Epsilon,
}

/// An automaton whose edges may be silent. States are the dense range
/// `0..transitions.len()`; each maps to its ordered list of outgoing edges.
#[derive(Debug, Clone)]
pub struct NFA {
    pub start: StateID,
    pub accept: Vec<StateID>,
    pub transitions: HashMap<StateID, Vec<(TransitionLabel, StateID)>>,
}

impl NFA {
    /// Number of states.
    pub open spec fn n(&self) -> nat {
        self.transitions@.len()
    }

    /// Outgoing edges of `s`; none for an id that is not a state.
    pub open spec fn edges(&self, s: usize) -> Seq<(TransitionLabel, usize)> {
        if self.transitions@.contains_key(s) {
            self.transitions@[s]@
        } else {
            Seq::empty()
        }
    }

    /// The state ids are exactly `0..n`.
    pub open spec fn dense(&self) -> bool {
        forall|s: usize| #[trigger] self.transitions@.contains_key(s) <==> (s as int) < self.n()
    }

    /// Every edge stays inside `0..n`.
    pub open spec fn closed(&self) -> bool {
        forall|s: usize, i: int|
            0 <= i < self.edges(s).len() ==> (#[trigger] self.edges(s)[i]).1 < self.n()
    }

    /// Well formed: dense ids, edges inside the state range, a start state.
    pub open spec fn wf(&self) -> bool {
        &&& self.dense()
        &&& self.closed()
        &&& (self.start as int) < self.n()
    }

    /// No edge is silent.
    pub open spec fn epsilon_free(&self) -> bool {
        forall|s: usize, i: int|
            0 <= i < self.edges(s).len() ==> (#[trigger] self.edges(s)[i]).0 != TransitionLabel::Epsilon
    }

    /// The accept set.
    pub open spec fn accept_set(&self) -> Set<usize> {
        Set::new(|a: usize| self.accept@.contains(a))
    }

    /// An empty automaton with start id 0 and no states yet.
    pub fn new() -> (r: NFA)
        ensures
            r.start == 0,
            r.accept@ == Seq::<usize>::empty(),
            r.transitions@ == Map::<usize, Vec<(TransitionLabel, usize)>>::empty(),
    {
        NFA { start: 0, accept: Vec::new(), transitions: HashMap::new() }
    }

    /// Allocates the next dense state id, with no edges.
    pub fn add_state(&mut self) -> (id: StateID)
        requires
            old(self).dense(),
            old(self).n() < usize::MAX,
        ensures
            id as int == old(self).n(),
            final(self).transitions@ == old(self).transitions@.insert(id, final(self).transitions@[id]),
            final(self).edges(id) == Seq::<(TransitionLabel, usize)>::empty(),
            final(self).n() == old(self).n() + 1,
            final(self).dense(),
            final(self).start == old(self).start,
            final(self).accept == old(self).accept,
    {
        let id = self.transitions.len();
        assert(!self.transitions@.contains_key(id));
        self.transitions.insert(id, Vec::new());
        assert(self.transitions@.dom() =~= old(self).transitions@.dom().insert(id));
        id
    }

    /// Appends the edge `from --label--> to` to the edges of `from`.
    pub fn add_edge(&mut self, from: StateID, label: TransitionLabel, to: StateID)
        requires
            old(self).transitions@.contains_key(from),
        ensures
            final(self).transitions@ == old(self).transitions@.insert(
                from,
                final(self).transitions@[from],
            ),
            final(self).edges(from) == old(self).edges(from).push((label, to)),
            final(self).start == old(self).start,
            final(self).accept == old(self).accept,
    {
        let mut row = self.transitions.remove(&from).unwrap();
        row.push((label, to));
        self.transitions.insert(from, row);
        assert(self.transitions@ =~= old(self).transitions@.insert(from, self.transitions@[from]));
    }
}

} // verus!

verus! {

impl NFA {
    /// `s --ε--> t` is an edge.
    pub open spec fn eps_step(&self, s: usize, t: usize) -> bool {
        exists|i: int|
            0 <= i < self.edges(s).len() && #[trigger] self.edges(s)[i] == (TransitionLabel::Epsilon, t)
    }

    /// `p` is a walk along silent edges.
    pub open spec fn eps_path(&self, p: Seq<usize>) -> bool {
        &&& p.len() >= 1
        &&& forall|i: int| 0 <= i < p.len() - 1 ==> #[trigger] self.eps_step(p[i], p[i + 1])
    }

    /// `t` is reached from `s` by silent edges only.
    pub open spec fn eps_reach(&self, s: usize, t: usize) -> bool {
        exists|p: Seq<usize>| #[trigger] self.eps_path(p) && p[0] == s && p.last() == t
    }

    /// The epsilon-closure of a set of states.
    pub open spec fn closure(&self, set: Set<usize>) -> Set<usize> {
        Set::new(|t: usize| exists|s: usize| set.contains(s) && #[trigger] self.eps_reach(s, t))
    }

    /// The states entered from `set` by one edge labelled `c`.
    pub open spec fn step(&self, set: Set<usize>, c: char) -> Set<usize> {
        Set::new(
            |t: usize|
                exists|s: usize, i: int|
                    set.contains(s) && 0 <= i < self.edges(s).len() && #[trigger] self.edges(s)[i]
                        == (TransitionLabel::Char(c), t),
        )
    }

    /// The states active after reading `w`, silent edges followed throughout.
    pub open spec fn sim(&self, w: Seq<char>) -> Set<usize>
        decreases w.len(),
    {
        if w.len() == 0 {
            self.closure(set![self.start])
        } else {
            self.closure(self.step(self.sim(w.drop_last()), w.last()))
        }
    }

    /// The automaton accepts `w`: some state active after `w` is accepting.
    pub open spec fn accepts(&self, w: Seq<char>) -> bool {
        exists|a: usize| self.sim(w).contains(a) && self.accept_set().contains(a)
    }

    /// The characters that label some edge.
    pub open spec fn alphabet(&self) -> Set<char> {
        Set::new(
            |c: char|
                exists|s: usize, i: int|
                    0 <= i < self.edges(s).len() && #[trigger] self.edges(s)[i].0 == TransitionLabel::Char(c),
        )
    }
}

pub proof fn lemma_reach_refl(nfa: &NFA, s: usize)
    ensures
        nfa.eps_reach(s, s),
{
    assert(nfa.eps_path(seq![s]));
}

pub proof fn lemma_reach_extend(nfa: &NFA, s: usize, u: usize, t: usize)
    requires
        nfa.eps_reach(s, u),
        nfa.eps_step(u, t),
    ensures
        nfa.eps_reach(s, t),
{
    let p = choose|p: Seq<usize>| #[trigger] nfa.eps_path(p) && p[0] == s && p.last() == u;
    let q = p.push(t);
    assert forall|i: int| 0 <= i < q.len() - 1 implies #[trigger] nfa.eps_step(q[i], q[i + 1]) by {
        if i < p.len() - 1 {
            assert(nfa.eps_step(p[i], p[i + 1]));
        }
    }
    assert(nfa.eps_path(q));
}

/// A set that holds `set` and is closed under silent edges holds its closure.
pub proof fn lemma_closure_least(nfa: &NFA, set: Set<usize>, v: Set<usize>)
    requires
        set.subset_of(v),
        forall|x: usize, y: usize| v.contains(x) && #[trigger] nfa.eps_step(x, y) ==> v.contains(y),
    ensures
        nfa.closure(set).subset_of(v),
{
    assert forall|t: usize| nfa.closure(set).contains(t) implies v.contains(t) by {
        let s = choose|s: usize| set.contains(s) && #[trigger] nfa.eps_reach(s, t);
        let p = choose|p: Seq<usize>| #[trigger] nfa.eps_path(p) && p[0] == s && p.last() == t;
        lemma_reach_in_closed(nfa, v, p);
    }
}

proof fn lemma_reach_in_closed(nfa: &NFA, v: Set<usize>, p: Seq<usize>)
    requires
        nfa.eps_path(p),
        v.contains(p[0]),
        forall|x: usize, y: usize| v.contains(x) && #[trigger] nfa.eps_step(x, y) ==> v.contains(y),
    ensures
        v.contains(p.last()),
    decreases p.len(),
{
    if p.len() > 1 {
        let q = p.drop_last();
        assert forall|i: int| 0 <= i < q.len() - 1 implies #[trigger] nfa.eps_step(q[i], q[i + 1]) by {
            assert(nfa.eps_step(p[i], p[i + 1]));
        }
        lemma_reach_in_closed(nfa, v, q);
        let j = p.len() - 2;
        assert(nfa.eps_step(p[j], p[j + 1]));
    }
}

/// Every state belongs to its own closure, and so does every member of a set.
pub proof fn lemma_closure_contains(nfa: &NFA, set: Set<usize>)
    ensures
        set.subset_of(nfa.closure(set)),
{
    assert forall|s: usize| set.contains(s) implies nfa.closure(set).contains(s) by {
        lemma_reach_refl(nfa, s);
    }
}

/// Closing a set twice gives its closure again.
pub proof fn lemma_closure_idempotent(nfa: &NFA, set: Set<usize>)
    ensures
        nfa.closure(nfa.closure(set)) == nfa.closure(set),
{
    let c = nfa.closure(set);
    lemma_closure_contains(nfa, c);
    assert forall|x: usize, y: usize| c.contains(x) && #[trigger] nfa.eps_step(x, y) implies c.contains(y) by {
        let s = choose|s: usize| set.contains(s) && #[trigger] nfa.eps_reach(s, x);
        lemma_reach_extend(nfa, s, x, y);
    }
    lemma_closure_least(nfa, c, c);
    assert(nfa.closure(c) =~= c);
}

/// Without silent edges a closure adds nothing.
pub proof fn lemma_closure_epsilon_free(nfa: &NFA, set: Set<usize>)
    requires
        nfa.epsilon_free(),
    ensures
        nfa.closure(set) == set,
{
    lemma_closure_contains(nfa, set);
    assert forall|x: usize, y: usize| set.contains(x) && #[trigger] nfa.eps_step(x, y) implies set.contains(y) by {
        let i = choose|i: int| 0 <= i < nfa.edges(x).len() && #[trigger] nfa.edges(x)[i] == (TransitionLabel::Epsilon, y);
        assert(nfa.edges(x)[i].0 != TransitionLabel::Epsilon);
    }
    lemma_closure_least(nfa, set, set);
    assert(nfa.closure(set) =~= set);
}

/// Nothing is reached from no state.
pub proof fn lemma_closure_empty(nfa: &NFA)
    ensures
        nfa.closure(Set::empty()) == Set::<usize>::empty(),
{
    assert(nfa.closure(Set::empty()) =~= Set::<usize>::empty());
}

/// Silent edges never leave the state range.
pub proof fn lemma_closure_below(nfa: &NFA, set: Set<usize>)
    requires
        nfa.closed(),
        forall|s: usize| set.contains(s) ==> (s as int) < nfa.n(),
    ensures
        forall|t: usize| nfa.closure(set).contains(t) ==> (t as int) < nfa.n(),
{
    let v = Set::new(|x: usize| (x as int) < nfa.n());
    assert forall|x: usize, y: usize| v.contains(x) && #[trigger] nfa.eps_step(x, y) implies v.contains(y) by {
        let i = choose|i: int| 0 <= i < nfa.edges(x).len() && #[trigger] nfa.edges(x)[i] == (TransitionLabel::Epsilon, y);
        assert(nfa.edges(x)[i].1 < nfa.n());
    }
    lemma_closure_least(nfa, set, v);
}

/// A character that labels no edge leads nowhere.
pub proof fn lemma_step_outside_alphabet(nfa: &NFA, set: Set<usize>, c: char)
    requires
        !nfa.alphabet().contains(c),
    ensures
        nfa.step(set, c) == Set::<usize>::empty(),
{
    assert forall|t: usize| !nfa.step(set, c).contains(t) by {
        if nfa.step(set, c).contains(t) {
            let (s, i) = choose|s: usize, i: int|
                set.contains(s) && 0 <= i < nfa.edges(s).len() && #[trigger] nfa.edges(s)[i] == (TransitionLabel::Char(c), t);
            assert(nfa.edges(s)[i].0 == TransitionLabel::Char(c));
        }
    }
    assert(nfa.step(set, c) =~= Set::<usize>::empty());
}

/// No state leads anywhere.
pub proof fn lemma_step_empty(nfa: &NFA, c: char)
    ensures
        nfa.step(Set::empty(), c) == Set::<usize>::empty(),
{
    assert(nfa.step(Set::empty(), c) =~= Set::<usize>::empty());
}

} // verus!
