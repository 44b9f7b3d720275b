use regex_dfa::dfa::DFA;
use regex_dfa::dot::{dfa_to_dot, nfa_to_dot};
use regex_dfa::graph_builder::GraphBuilder;
use regex_dfa::nfa::{TransitionLabel, NFA};
use regex_dfa::parser::Parser;
use regex_dfa::renumber::renumber_dfs;
use regex_dfa::thompson::Thompson;
use regex_dfa::tokenizer::tokenize;
use regex_dfa::types::{Symbol, Transition};
use std::collections::{HashMap, HashSet};

fn build(expr: &str) -> NFA {
    let mut p = Parser::new(tokenize(expr));
    let ast = p.parse_expr().unwrap();
    Thompson::new().from_ast(&ast)
}

#[test]
fn graph_builder_numbers_states_densely() {
    let mut b = GraphBuilder::new();
    let s0 = b.new_state();
    let s1 = b.new_state();
    let s2 = b.new_state();
    assert_eq!((s0, s1, s2), (0, 1, 2));
    b.add_transition(s0, s1, Symbol::Char('x'));
    b.add_transition(s1, s2, Symbol::Epsilon);
    b.add_accept(s2);
    let a = b.build(s0);
    assert_eq!(a.states, vec![0, 1, 2]);
    assert_eq!(a.start, 0);
    assert_eq!(a.accepts, vec![2]);
    assert_eq!(a.transitions.len(), 2);
    assert_eq!(a.transitions[0], Transition { from: 0, to: 1, symbol: Symbol::Char('x') });
    assert_eq!(a.transitions[1].symbol, Symbol::Epsilon);
}

#[test]
fn renumber_follows_depth_first_order() {
    let nfa = build("a+b");
    let r = renumber_dfs(&nfa);
    assert_eq!(r.start, 0);
    assert_eq!(r.transitions.len(), 6);
    assert_eq!(r.transitions[&0], vec![(TransitionLabel::Epsilon, 2), (TransitionLabel::Epsilon, 1)]);
    assert_eq!(r.transitions[&2], vec![(TransitionLabel::Char('a'), 3)]);
    assert_eq!(r.accept, vec![4]);
}

#[test]
fn renumber_drops_unreachable_states() {
    let mut transitions = HashMap::new();
    transitions.insert(0, vec![(TransitionLabel::Char('a'), 2)]);
    transitions.insert(1, vec![(TransitionLabel::Char('b'), 0)]);
    transitions.insert(2, vec![]);
    let nfa = NFA { start: 0, accept: vec![2, 1], transitions };
    let r = renumber_dfs(&nfa);
    assert_eq!(r.transitions.len(), 2);
    assert_eq!(r.transitions[&0], vec![(TransitionLabel::Char('a'), 1)]);
    assert_eq!(r.accept, vec![1]);
}

#[test]
fn nfa_dot_text() {
    let nfa = build("a");
    let text = nfa_to_dot(&nfa);
    assert_eq!(
        text,
        "digraph NFA {\n  rankdir=LR;\n  node [shape=circle];\n  start [shape=point];\n  start -> 0;\n  0 -> 1 [label=\"a\"];\n  1 [shape=doublecircle];\n}\n"
    );
    let star = nfa_to_dot(&build("a*"));
    assert!(star.contains("  2 -> 0 [label=\"ε\"];\n"));
}

#[test]
fn dfa_dot_text() {
    let mut transitions = HashMap::new();
    transitions.insert(12, vec![('"', 7)]);
    let mut accepts = HashSet::new();
    accepts.insert(7);
    let dfa = DFA { start: 12, accepts, transitions };
    assert_eq!(
        dfa_to_dot(&dfa),
        "digraph DFA {\n  rankdir=LR;\n  node [shape=circle];\n  start [shape=point];\n  start -> 12;\n  12 -> 7 [label=\"\\\"\"];\n  7 [shape=doublecircle];\n}\n"
    );
}
