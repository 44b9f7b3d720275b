use regex_dfa::ast::RegexAST;
use regex_dfa::parser::{parse_language, ParseError, Parser};
use regex_dfa::tokenizer::{find_unexpected, tokenize, Token};

fn parse(expr: &str) -> RegexAST {
    let tokens = tokenize(expr);
    let mut p = Parser::new(tokens);
    p.parse_expr().unwrap()
}

#[test]
fn test_single_literal() {
    let ast = parse("a");
    assert!(matches!(ast, RegexAST::Char('a')));
}

#[test]
fn test_concat() {
    let ast = parse("ab");
    match ast {
        RegexAST::Concat(a, b) => {
            assert!(matches!(*a, RegexAST::Char('a')));
            assert!(matches!(*b, RegexAST::Char('b')));
        }
        _ => panic!("expected Concat"),
    }
}

#[test]
fn test_union() {
    let ast = parse("a+b");
    match ast {
        RegexAST::Union(a, b) => {
            assert!(matches!(*a, RegexAST::Char('a')));
            assert!(matches!(*b, RegexAST::Char('b')));
        }
        _ => panic!("expected Union"),
    }
}

#[test]
fn test_kleene_star() {
    let ast = parse("a*");
    match ast {
        RegexAST::Star(inner) => {
            assert!(matches!(*inner, RegexAST::Char('a')));
        }
        _ => panic!("expected Star"),
    }
}

#[test]
fn test_parentheses() {
    let ast = parse("(a+b)");
    match ast {
        RegexAST::Union(_, _) => {}
        _ => panic!("expected Union from (a+b)"),
    }
}

#[test]
fn test_precedence_concat_vs_union() {
    let ast = parse("a+bc");
    match ast {
        RegexAST::Union(left, right) => {
            assert!(matches!(*left, RegexAST::Char('a')));
            match *right {
                RegexAST::Concat(x, y) => {
                    assert!(matches!(*x, RegexAST::Char('b')));
                    assert!(matches!(*y, RegexAST::Char('c')));
                }
                _ => panic!("expected bc to be concatenation"),
            }
        }
        _ => panic!("wrong precedence"),
    }
}

#[test]
fn test_star_highest_precedence() {
    let ast = parse("ab*");
    match ast {
        RegexAST::Concat(left, right) => {
            assert!(matches!(*left, RegexAST::Char('a')));
            match *right {
                RegexAST::Star(inner) => assert!(matches!(*inner, RegexAST::Char('b'))),
                _ => panic!("expected b*"),
            }
        }
        _ => panic!("wrong precedence"),
    }
}

#[test]
fn test_complex_expression() {
    let ast = parse("(a+b)*c");
    match ast {
        RegexAST::Concat(star_expr, c_literal) => {
            assert!(matches!(*c_literal, RegexAST::Char('c')));
            match *star_expr {
                RegexAST::Star(inner) => {
                    assert!(matches!(*inner, RegexAST::Union(_, _)));
                }
                _ => panic!("expected (a+b)*"),
            }
        }
        _ => panic!("incorrect full expression parse"),
    }
}

#[test]
fn parse_language_rejects_trailing_and_missing_tokens() {
    assert!(matches!(parse_language(""), Err(ParseError::UnexpectedEnd)));
    assert!(matches!(parse_language("a)"), Err(ParseError::UnexpectedToken(Token::RParen))));
    assert!(matches!(parse_language("(a"), Err(ParseError::UnexpectedEnd)));
    assert!(matches!(parse_language("+a"), Err(ParseError::UnexpectedToken(Token::Plus))));
    assert!(matches!(parse_language("a b"), Ok(RegexAST::Concat(_, _))));
}

#[test]
fn test_simple_literals() {
    let t = tokenize("abc");
    assert_eq!(t, vec![Token::Char('a'), Token::Char('b'), Token::Char('c'),]);
}

#[test]
fn test_operators() {
    let t = tokenize("a+b*");
    assert_eq!(t, vec![Token::Char('a'), Token::Plus, Token::Char('b'), Token::Star,]);
}

#[test]
fn test_parens() {
    let t = tokenize("(a+b)*c");
    assert_eq!(
        t,
        vec![
            Token::LParen,
            Token::Char('a'),
            Token::Plus,
            Token::Char('b'),
            Token::RParen,
            Token::Star,
            Token::Char('c'),
        ]
    );
}

#[test]
fn tokenizer_skips_white_space_and_flags_other_characters() {
    assert_eq!(tokenize(" a \t9 "), vec![Token::Char('a'), Token::Char('9')]);
    assert_eq!(find_unexpected("a+b"), None);
    assert_eq!(find_unexpected("a#b"), Some('#'));
    assert_eq!(find_unexpected("ab "), None);
}

#[test]
fn tokenizer_skips_unicode_white_space() {
    assert_eq!(tokenize("a\u{3000}b\u{2028}*"), vec![Token::Char('a'), Token::Char('b'), Token::Star]);
    assert_eq!(find_unexpected("a\u{200B}"), Some('\u{200B}'));
}
