use regex_dfa::dfa::{nfa_to_dfa, DFA};
use regex_dfa::epsilon_elimination::{epsilon_closure_of_set, epsilon_closure_of_state, move_on_char, remove_epsilon};
use regex_dfa::minimize::minimize_dfa;
use regex_dfa::nfa::{TransitionLabel, NFA};
use regex_dfa::parser::Parser;
use regex_dfa::thompson::Thompson;
use regex_dfa::tokenizer::tokenize;
use std::collections::{HashMap, HashSet};

fn build_nfa(expr: &str) -> NFA {
    let tokens = tokenize(expr);
    let mut p = Parser::new(tokens);
    let ast = p.parse_expr().unwrap();
    Thompson::new().from_ast(&ast)
}

fn reachable_states(d: &DFA) -> usize {
    let mut seen = vec![d.start];
    let mut i = 0;
    while i < seen.len() {
        if let Some(row) = d.transitions.get(&seen[i]) {
            for (_, t) in row {
                if !seen.contains(t) {
                    seen.push(*t);
                }
            }
        }
        i += 1;
    }
    seen.len()
}

#[test]
fn dfa_from_single_char() {
    let mut transitions = HashMap::new();
    transitions.insert(0, vec![(TransitionLabel::Char('a'), 1)]);
    transitions.insert(1, vec![]);
    let nfa = NFA { start: 0, accept: vec![1], transitions };

    let dfa = nfa_to_dfa(&nfa);

    assert_eq!(dfa.accepts.len(), 1);
    assert!(dfa.accepts.contains(&1));
    assert_eq!(dfa.start, 0);
    assert_eq!(dfa.step(0, 'a'), Some(1));
}

#[test]
fn dfa_from_union() {
    let mut transitions = HashMap::new();
    transitions.insert(0, vec![(TransitionLabel::Char('a'), 1), (TransitionLabel::Char('b'), 2)]);
    transitions.insert(1, vec![]);
    transitions.insert(2, vec![]);
    let nfa = NFA { start: 0, accept: vec![1], transitions };

    let dfa = nfa_to_dfa(&nfa);

    assert!(dfa.accepts.contains(&1));
    assert_eq!(dfa.step(0, 'a'), Some(1));
    assert_eq!(dfa.step(0, 'b'), Some(2));
}

#[test]
fn dfa_from_concat_ab() {
    let mut transitions = HashMap::new();
    transitions.insert(0, vec![(TransitionLabel::Char('a'), 1)]);
    transitions.insert(1, vec![(TransitionLabel::Char('b'), 2)]);
    transitions.insert(2, vec![]);
    let nfa = NFA { start: 0, accept: vec![2], transitions };

    let dfa = nfa_to_dfa(&nfa);

    assert!(dfa.accepts.contains(&2));
    let s0 = dfa.start;
    let s1 = dfa.step(s0, 'a').unwrap();
    let s2 = dfa.step(s1, 'b').unwrap();
    assert!(dfa.accepts.contains(&s2));
}

#[test]
fn dfa_from_star_a() {
    let mut transitions = HashMap::new();
    transitions.insert(0, vec![(TransitionLabel::Char('a'), 0)]);
    let nfa = NFA { start: 0, accept: vec![0], transitions };

    let dfa = nfa_to_dfa(&nfa);

    assert!(dfa.accepts.contains(&dfa.start));
    assert_eq!(dfa.step(dfa.start, 'a'), Some(dfa.start));
}

#[test]
fn dfa_from_kleene_star_union_concat() {
    let mut transitions = HashMap::new();
    transitions.insert(
        0,
        vec![
            (TransitionLabel::Char('a'), 0),
            (TransitionLabel::Char('b'), 0),
            (TransitionLabel::Char('c'), 1),
        ],
    );
    transitions.insert(1, vec![]);
    let nfa = NFA { start: 0, accept: vec![1], transitions };

    let dfa = nfa_to_dfa(&nfa);

    assert!(dfa.accepts.contains(&1));
    let s0 = dfa.start;
    let s_loop_a = dfa.step(s0, 'a').unwrap();
    let s_loop_b = dfa.step(s0, 'b').unwrap();
    let s_accept = dfa.step(s0, 'c').unwrap();
    assert_eq!(s_loop_a, s0);
    assert_eq!(s_loop_b, s0);
    assert!(dfa.accepts.contains(&s_accept));
}

#[test]
fn subset_construction_merges_equal_subsets() {
    // 0 -a-> 1, 0 -a-> 2, 1 -b-> 3, 2 -b-> 3: {1,2} is one state
    let mut transitions = HashMap::new();
    transitions.insert(0, vec![(TransitionLabel::Char('a'), 1), (TransitionLabel::Char('a'), 2)]);
    transitions.insert(1, vec![(TransitionLabel::Char('b'), 3)]);
    transitions.insert(2, vec![(TransitionLabel::Char('b'), 3)]);
    transitions.insert(3, vec![]);
    let nfa = NFA { start: 0, accept: vec![3], transitions };
    let dfa = nfa_to_dfa(&nfa);
    assert_eq!(dfa.step(0, 'a'), Some(1));
    assert_eq!(dfa.step(1, 'b'), Some(2));
    assert_eq!(dfa.step(0, 'b'), None);
    assert!(dfa.accepts("ab"));
    assert!(!dfa.accepts("a"));
    assert!(!dfa.accepts("abb"));
    assert_eq!(dfa.accepts.len(), 1);
    // at most 2^4 states
    assert!(reachable_states(&dfa) <= 16);
}

#[test]
fn minimize_single_state() {
    let mut transitions = HashMap::new();
    transitions.insert(0, vec![('a', 0)]);
    let mut accepts = HashSet::new();
    accepts.insert(0);
    let dfa = DFA { start: 0, accepts, transitions };

    let minimized = minimize_dfa(&dfa);

    assert_eq!(minimized.start, 0);
    assert!(minimized.accepts.contains(&0));
    assert_eq!(minimized.step(0, 'a').unwrap(), 0);
}

#[test]
fn minimize_already_minimal() {
    let mut transitions = HashMap::new();
    transitions.insert(0, vec![('a', 1)]);
    transitions.insert(1, vec![]);
    let mut accepts = HashSet::new();
    accepts.insert(1);
    let dfa = DFA { start: 0, accepts, transitions };

    let minimized = minimize_dfa(&dfa);

    assert_eq!(minimized.transitions.len(), 1);
    assert!(minimized.accepts.len() == 1);
}

#[test]
fn minimize_redundant_states() {
    let mut transitions = HashMap::new();
    transitions.insert(0, vec![('a', 1), ('b', 2)]);
    transitions.insert(1, vec![]);
    transitions.insert(2, vec![]);
    let mut accepts = HashSet::new();
    accepts.insert(1);
    accepts.insert(2);
    let dfa = DFA { start: 0, accepts: accepts.clone(), transitions };

    let minimized = minimize_dfa(&dfa);

    let mut all_states = HashSet::new();
    all_states.insert(minimized.start);
    all_states.extend(minimized.accepts.iter());
    for trans in minimized.transitions.values() {
        all_states.extend(trans.iter().map(|p| p.1));
    }
    assert_eq!(all_states.len(), 2);
    assert_eq!(minimized.accepts.len(), 1);
}

#[test]
fn minimize_complex_example() {
    let mut transitions = HashMap::new();
    transitions.insert(0, vec![('a', 1), ('b', 0)]);
    transitions.insert(1, vec![('a', 1), ('b', 2)]);
    transitions.insert(2, vec![('a', 1), ('b', 3)]);
    transitions.insert(3, vec![('a', 1), ('b', 0)]);
    let mut accepts = HashSet::new();
    accepts.insert(3);
    let dfa = DFA { start: 0, accepts, transitions };

    let minimized = minimize_dfa(&dfa);

    assert!(minimized.accepts.len() >= 1);
    assert_eq!(minimized.start, minimized.start);
}

#[test]
fn minimize_keeps_language_of_abb() {
    let mut transitions = HashMap::new();
    transitions.insert(0, vec![('a', 1), ('b', 0)]);
    transitions.insert(1, vec![('a', 1), ('b', 2)]);
    transitions.insert(2, vec![('a', 1), ('b', 3)]);
    transitions.insert(3, vec![('a', 1), ('b', 0)]);
    // 4 duplicates 0
    transitions.insert(4, vec![('a', 1), ('b', 4)]);
    let mut accepts = HashSet::new();
    accepts.insert(3);
    let dfa = DFA { start: 4, accepts, transitions };
    let minimized = minimize_dfa(&dfa);
    for w in ["abb", "aabb", "babb", "ab", "", "abba", "abbabb"] {
        assert_eq!(minimized.accepts(w), dfa.accepts(w), "{}", w);
    }
    assert!(minimized.accepts("abb"));
    assert!(!minimized.accepts("ab"));
    assert_eq!(reachable_states(&minimized), 4);
    // minimizing again changes nothing in size
    let again = minimize_dfa(&minimized);
    assert_eq!(reachable_states(&again), reachable_states(&minimized));
}

#[test]
fn minimize_without_accepting_states() {
    let mut transitions = HashMap::new();
    transitions.insert(0, vec![('a', 1)]);
    transitions.insert(1, vec![('a', 0)]);
    let dfa = DFA { start: 0, accepts: HashSet::new(), transitions };
    let minimized = minimize_dfa(&dfa);
    assert_eq!(reachable_states(&minimized), 1);
    assert!(minimized.accepts.is_empty());
    assert!(!minimized.accepts("aa"));
}

#[test]
fn closure_simple() {
    let nfa = build_nfa("a+b");
    let closure = epsilon_closure_of_state(&nfa, nfa.start);
    assert!(closure.contains(&nfa.start));
    assert!(closure.len() >= 2);
}

#[test]
fn closure_contains_state_and_is_idempotent() {
    let nfa = build_nfa("(a+b)*c");
    for s in 0..nfa.transitions.len() {
        let c = epsilon_closure_of_state(&nfa, s);
        assert!(c.contains(&s));
        let again = epsilon_closure_of_set(&nfa, &c);
        assert_eq!(again, c);
    }
    // star start: skip edge to the star's exit, entry into the union
    let start = epsilon_closure_of_state(&nfa, nfa.start);
    let expected: HashSet<usize> = [6, 7, 4, 0, 2, 8].into_iter().collect();
    assert_eq!(start, expected);
    let moved = move_on_char(&nfa, &start, 'a');
    let expected_move: HashSet<usize> = [1].into_iter().collect();
    assert_eq!(moved, expected_move);
    assert!(move_on_char(&nfa, &start, 'z').is_empty());
}

#[test]
fn remove_epsilon_removes_epsilon_transitions_except_accept_shim() {
    let nfa = build_nfa("(a+b)*c");
    let cleaned = remove_epsilon(&nfa);

    let mut found_epsilon = false;
    for edges in cleaned.transitions.values() {
        for (label, _) in edges {
            if *label == TransitionLabel::Epsilon {
                found_epsilon = true;
            }
        }
    }
    assert!(!found_epsilon || cleaned.transitions.len() >= 1, "unexpected epsilon-heavy NFA");

    let mut has_c = false;
    for edges in cleaned.transitions.values() {
        for (label, _) in edges {
            if let TransitionLabel::Char(ch) = label {
                if *ch == 'c' {
                    has_c = true;
                }
            }
        }
    }
    assert!(has_c, "expected char 'c' transitions after epsilon removal");
}

#[test]
fn elimination_merges_equal_closures() {
    let nfa = build_nfa("(a+b)*c");
    let cleaned = remove_epsilon(&nfa);
    // closures: start, after a, after b (same as after a? no: different states), after c
    assert_eq!(cleaned.start, 0);
    assert_eq!(cleaned.transitions.len(), 4);
    assert_eq!(cleaned.accept, vec![3]);
    let dfa = nfa_to_dfa(&cleaned);
    for w in ["c", "ac", "bc", "abac", "bbbbc"] {
        assert!(dfa.accepts(w), "{}", w);
    }
    for w in ["", "a", "cc", "cab"] {
        assert!(!dfa.accepts(w), "{}", w);
    }
}
