//! Edge-list automata: states, start, accepting states, labelled edges.
use vstd::prelude::*;

verus! {

/// A state id in an edge-list automaton.
pub type StateID = u32;

/// A transition label: silent, or one character.
#[derive(Debug, Clone, Copy, PartialEq, Eq, Structural)]
pub enum Symbol {
    Epsilon,
    Char(char),
}

/// An edge `from --symbol--> to`.
#[derive(Debug, Clone, Copy, PartialEq, Eq, Structural)]
pub struct Transition {
    pub from: StateID,
    pub to: StateID,
    pub symbol: Symbol,
}

/// An automaton as plain lists: its states, start, accepting states and edges.
#[derive(Debug, Clone)]
pub struct Automaton {
    pub states: Vec<StateID>,
    pub start: StateID,
    pub accepts: Vec<StateID>,
    pub transitions: Vec<Transition>,
}

} // verus!
