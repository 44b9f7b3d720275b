//! Splitting pattern text into tokens.
use vstd::prelude::*;

verus! {

/// A lexical token of a pattern.
#[derive(Debug, Clone, Copy, PartialEq, Eq, Structural)]
pub enum Token {
    Char(char),
    /// `+`
    Plus,
    /// `*`
    Star,
    /// `(`
    LParen,
    /// `)`
    RParen,
}

/// What `char::is_alphanumeric` returns for `c`.
pub uninterp spec fn alphanumeric(c: char) -> bool;

/// Unicode's White_Space characters.
pub open spec fn whitespace(c: char) -> bool {
    let u = c as u32;
    (0x9 <= u <= 0xD) || u == 0x20 || u == 0x85 || u == 0xA0 || u == 0x1680 || (0x2000 <= u <= 0x200A)
        || u == 0x2028 || u == 0x2029 || u == 0x202F || u == 0x205F || u == 0x3000
}

/// Relies on `char::is_alphanumeric`: Unicode's Alphabetic or Numeric property of `c`.
#[verifier::external_body]
fn is_alphanumeric(c: char) -> (r: bool)
    ensures
        r == alphanumeric(c),
{
    c.is_alphanumeric()
}

/// Whether `c` has Unicode's White_Space property.
fn is_whitespace(c: char) -> (r: bool)
    ensures
        r == whitespace(c),
{
    let u = c as u32;
    (0x9 <= u && u <= 0xD) || u == 0x20 || u == 0x85 || u == 0xA0 || u == 0x1680 || (0x2000 <= u && u <= 0x200A)
        || u == 0x2028 || u == 0x2029 || u == 0x202F || u == 0x205F || u == 0x3000
}

/// A character a pattern may hold: an operator, a parenthesis, a literal
/// (alphanumeric) or white space.
pub open spec fn pattern_char(c: char) -> bool {
    c == '+' || c == '*' || c == '(' || c == ')' || alphanumeric(c) || whitespace(c)
}

/// The tokens one character stands for: none for white space.
pub open spec fn char_tokens(c: char) -> Seq<Token> {
    if c == '+' {
        seq![Token::Plus]
    } else if c == '*' {
        seq![Token::Star]
    } else if c == '(' {
        seq![Token::LParen]
    } else if c == ')' {
        seq![Token::RParen]
    } else if alphanumeric(c) {
        seq![Token::Char(c)]
    } else {
        Seq::empty()
    }
}

/// The tokens of a pattern, character by character.
pub open spec fn tokens_of(s: Seq<char>) -> Seq<Token>
    decreases s.len(),
{
    if s.len() == 0 {
        Seq::empty()
    } else {
        tokens_of(s.drop_last()) + char_tokens(s.last())
    }
}

/// The first character of `input` that may not stand in a pattern, if any.
pub fn find_unexpected(input: &str) -> (r: Option<char>)
    ensures
        r is None <==> forall|i: int| 0 <= i < input@.len() ==> pattern_char(#[trigger] input@[i]),
        r matches Some(c) ==> !pattern_char(c) && input@.contains(c),
{
    let ghost w = input@;
    for ch in it: input.chars()
        invariant
            it.seq() == w,
            w == input@,
            forall|i: int| 0 <= i < it.index() ==> pattern_char(#[trigger] w[i]),
    {
        if !(ch == '+' || ch == '*' || ch == '(' || ch == ')' || is_alphanumeric(ch) || is_whitespace(ch)) {
            assert(!pattern_char(w[it.index() as int]));
            return Some(ch);
        }
    }
    None
}

/// Splits a pattern into tokens, skipping white space.
pub fn tokenize(input: &str) -> (tokens: Vec<Token>)
    requires
        forall|i: int| 0 <= i < input@.len() ==> pattern_char(#[trigger] input@[i]),
    ensures
        tokens@ == tokens_of(input@),
{
    let mut tokens: Vec<Token> = Vec::new();
    let ghost w = input@;
    for ch in it: input.chars()
        invariant
            it.seq() == w,
            w == input@,
            tokens@ == tokens_of(w.take(it.index() as int)),
    {
        let ghost i = it.index() as int;
        proof {
            assert(w.take(i + 1).drop_last() =~= w.take(i));
            assert(w.take(i + 1).last() == ch);
            assert(tokens_of(w.take(i + 1)) == tokens_of(w.take(i)) + char_tokens(ch));
        }
        let ghost t0 = tokens@;
        let tok: Option<Token> = if ch == '+' {
            Some(Token::Plus)
        } else if ch == '*' {
            Some(Token::Star)
        } else if ch == '(' {
            Some(Token::LParen)
        } else if ch == ')' {
            Some(Token::RParen)
        } else if is_alphanumeric(ch) {
            Some(Token::Char(ch))
        } else {
            None
        };
        match tok {
            Some(t) => {
                tokens.push(t);
                proof {
                    crate::bounds::lemma_push_facts(t0, t);
                    assert(char_tokens(ch) =~= seq![t]);
                }
            },
            None => {
                assert(char_tokens(ch) =~= Seq::<Token>::empty());
            },
        }
        assert(tokens@ =~= t0 + char_tokens(ch));
    }
    assert(w.take(w.len() as int) =~= w);
    tokens
}

} // verus!
