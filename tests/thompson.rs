use regex_dfa::ast::RegexAST;
use regex_dfa::nfa::{TransitionLabel, NFA};
use regex_dfa::parser::Parser;
use regex_dfa::thompson::Thompson;
use regex_dfa::tokenizer::tokenize;

fn build(expr: &str) -> NFA {
    let tokens = tokenize(expr);
    let mut parser = Parser::new(tokens);
    let ast = parser.parse_expr().unwrap();
    Thompson::new().from_ast(&ast)
}

#[test]
fn test_single_char_nfa() {
    let nfa = build("a");
    assert_eq!(nfa.transitions.len(), 2);

    let outgoing = nfa.transitions.get(&nfa.start).unwrap();
    assert_eq!(outgoing.len(), 1);

    assert!(matches!(outgoing[0].0, TransitionLabel::Char('a')));
    assert_eq!(outgoing[0].1, nfa.accept[0]);
}

#[test]
fn test_concat_nfa() {
    let nfa = build("ab");
    assert!(nfa.transitions.len() >= 4);

    let mut epsilon_found = false;
    for edges in nfa.transitions.values() {
        for (label, _) in edges {
            if *label == TransitionLabel::Epsilon {
                epsilon_found = true;
            }
        }
    }
    assert!(epsilon_found, "expected epsilon between concatenated fragments");
}

#[test]
fn test_union_nfa() {
    let nfa = build("a+b");
    assert!(nfa.transitions.len() >= 4);

    let start_edges = nfa.transitions.get(&nfa.start).unwrap();
    assert_eq!(start_edges.len(), 2);
    assert!(start_edges.iter().all(|e| e.0 == TransitionLabel::Epsilon));
}

#[test]
fn test_star_nfa() {
    let nfa = build("a*");
    let mut epsilons = 0;
    for edges in nfa.transitions.values() {
        epsilons += edges
            .iter()
            .filter(|(label, _)| *label == TransitionLabel::Epsilon)
            .count();
    }
    assert!(epsilons >= 3, "expected multiple epsilon transitions for star");
}

#[test]
fn test_complex_nfa() {
    let nfa = build("(a+b)*c");
    assert!(nfa.transitions.len() >= 8);
    assert!(nfa.start < nfa.accept[0]);
}

#[test]
fn state_count_is_sum_of_node_allocations() {
    // literal: 2, concat: 0, union: 2, star: 2
    assert_eq!(build("a").transitions.len(), 2);
    assert_eq!(build("ab").transitions.len(), 4);
    assert_eq!(build("a+b").transitions.len(), 6);
    assert_eq!(build("a*").transitions.len(), 4);
    assert_eq!(build("(a+b)*c").transitions.len(), 10);
    let ast = RegexAST::Star(Box::new(RegexAST::Char('x')));
    assert_eq!(regex_dfa::ast::count_states(&ast), Some(4));
}

#[test]
fn fragments_share_no_state() {
    let nfa = build("(a+b)*c");
    // every id below the count is a state with its own edge list
    for s in 0..nfa.transitions.len() {
        assert!(nfa.transitions.contains_key(&s));
    }
    // the accept state has no outgoing edge
    assert!(nfa.transitions[&nfa.accept[0]].is_empty());
    assert_eq!(nfa.accept.len(), 1);
}

#[test]
fn construction_edges_follow_each_node_kind() {
    let cat = build("ab");
    assert_eq!(cat.transitions[&0], vec![(TransitionLabel::Char('a'), 1)]);
    assert_eq!(cat.transitions[&1], vec![(TransitionLabel::Epsilon, 2)]);
    assert_eq!((cat.start, cat.accept[0]), (0, 3));

    let union = build("a+b");
    assert_eq!(union.transitions[&4], vec![(TransitionLabel::Epsilon, 0), (TransitionLabel::Epsilon, 2)]);
    assert_eq!(union.transitions[&1], vec![(TransitionLabel::Epsilon, 5)]);
    assert_eq!(union.transitions[&3], vec![(TransitionLabel::Epsilon, 5)]);
    assert_eq!((union.start, union.accept[0]), (4, 5));

    let star = build("a*");
    assert_eq!(star.transitions[&2], vec![(TransitionLabel::Epsilon, 0), (TransitionLabel::Epsilon, 3)]);
    assert_eq!(star.transitions[&1], vec![(TransitionLabel::Epsilon, 0), (TransitionLabel::Epsilon, 3)]);
    assert!(star.transitions[&3].is_empty());
    assert_eq!((star.start, star.accept[0]), (2, 3));
}
