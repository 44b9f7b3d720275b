//! A builder for edge-list automata with densely numbered states.
use crate::types::{Automaton, StateID, Symbol, Transition};
use vstd::prelude::*;

verus! {

/// Collects states, edges and accepting states, then yields an [`Automaton`]
/// whose states are `0..n` for the `n` states allocated.
pub struct GraphBuilder {
    next_state: StateID,
    transitions: Vec<Transition>,
    accepts: Vec<StateID>,
}

impl GraphBuilder {
    /// Number of states allocated so far.
    pub closed spec fn allocated(&self) -> nat {
        self.next_state as nat
    }

    /// Edges recorded so far, in order.
    pub closed spec fn edges(&self) -> Seq<Transition> {
        self.transitions@
    }

    /// Accepting states recorded so far, in order.
    pub closed spec fn accepting(&self) -> Seq<StateID> {
        self.accepts@
    }

    pub fn new() -> (b: GraphBuilder)
        ensures
            b.allocated() == 0,
            b.edges() == Seq::<Transition>::empty(),
            b.accepting() == Seq::<StateID>::empty(),
    {
        GraphBuilder { next_state: 0, transitions: Vec::new(), accepts: Vec::new() }
    }

    /// Allocates the next state id.
    pub fn new_state(&mut self) -> (id: StateID)
        requires
            old(self).allocated() < u32::MAX,
        ensures
            id as nat == old(self).allocated(),
            final(self).allocated() == old(self).allocated() + 1,
            final(self).edges() == old(self).edges(),
            final(self).accepting() == old(self).accepting(),
    {
        let id = self.next_state;
        self.next_state = self.next_state + 1;
        id
    }

    /// Records the edge `from --symbol--> to`.
    pub fn add_transition(&mut self, from: StateID, to: StateID, symbol: Symbol)
        ensures
            final(self).allocated() == old(self).allocated(),
            final(self).edges() == old(self).edges().push(Transition { from, to, symbol }),
            final(self).accepting() == old(self).accepting(),
    {
        self.transitions.push(Transition { from, to, symbol });
    }

    /// Records `state` as accepting.
    pub fn add_accept(&mut self, state: StateID)
        ensures
            final(self).allocated() == old(self).allocated(),
            final(self).edges() == old(self).edges(),
            final(self).accepting() == old(self).accepting().push(state),
    {
        self.accepts.push(state);
    }

    /// The automaton with states `0..n`, the given start, and what was recorded.
    pub fn build(self, start: StateID) -> (a: Automaton)
        ensures
            a.states@.len() == self.allocated(),
            forall|i: int| 0 <= i < a.states@.len() ==> a.states@[i] == i,
            a.start == start,
            a.accepts@ == self.accepting(),
            a.transitions@ == self.edges(),
    {
        let mut states: Vec<StateID> = Vec::new();
        let mut s: StateID = 0;
        while s < self.next_state
            invariant
                s <= self.next_state,
                states@.len() == s,
                forall|i: int| 0 <= i < s ==> states@[i] == i,
            decreases self.next_state - s,
        {
            states.push(s);
            s = s + 1;
        }
        Automaton { states, start, accepts: self.accepts, transitions: self.transitions }
    }
}

} // verus!
