//! Recursive-descent parsing of tokens into a syntax tree.
use crate::ast::RegexAST;
use crate::tokenizer::{pattern_char, tokenize, tokens_of, Token};
use vstd::prelude::*;

verus! {

/// Why a token list is not a pattern.
#[derive(Debug)]
pub enum ParseError {
    UnexpectedEnd,
    UnexpectedToken(Token),
}

/// The grammar, as a function of the tokens and a position: what parsing a
/// primary (a character, or an expression in parentheses) at `i` gives, with
/// the position after it.
pub open spec fn primary_of(t: Seq<Token>, i: int) -> Result<(RegexAST, int), ParseError>
    decreases t.len() - i, 0nat,
{
    if !(0 <= i < t.len()) {
        Err(ParseError::UnexpectedEnd)
    } else {
        match t[i] {
            Token::Char(c) => Ok((RegexAST::Char(c), i + 1)),
            Token::LParen => match expr_of(t, i + 1) {
                Ok((e, j)) => if !(0 <= j < t.len()) {
                    Err(ParseError::UnexpectedEnd)
                } else if t[j] == Token::RParen {
                    Ok((e, j + 1))
                } else {
                    Err(ParseError::UnexpectedToken(t[j]))
                },
                Err(x) => Err(x),
            },
            tok => Err(ParseError::UnexpectedToken(tok)),
        }
    }
}

/// A node followed by as many `*` as stand at `j`.
pub open spec fn stars_of(t: Seq<Token>, e: RegexAST, j: int) -> (RegexAST, int)
    decreases t.len() - j,
{
    if 0 <= j < t.len() && t[j] == Token::Star {
        stars_of(t, RegexAST::Star(Box::new(e)), j + 1)
    } else {
        (e, j)
    }
}

/// factor := primary '*'*
pub open spec fn factor_of(t: Seq<Token>, i: int) -> Result<(RegexAST, int), ParseError>
    decreases t.len() - i, 1nat,
{
    if !(0 <= i <= t.len()) {
        Err(ParseError::UnexpectedEnd)
    } else {
        match primary_of(t, i) {
            Ok((e, j)) => Ok(stars_of(t, e, j)),
            Err(x) => Err(x),
        }
    }
}

/// The factors that follow `e` at `j`, each concatenated on the right.
/// (A factor always consumes a token; the last branch is never taken.)
pub open spec fn term_rest_of(t: Seq<Token>, e: RegexAST, j: int) -> Result<(RegexAST, int), ParseError>
    decreases t.len() - j, 2nat,
{
    if !(0 <= j <= t.len()) {
        Err(ParseError::UnexpectedEnd)
    } else if j < t.len() && (t[j] is Char || t[j] == Token::LParen) {
        match factor_of(t, j) {
            Ok((f, k)) => if j < k <= t.len() {
                term_rest_of(t, RegexAST::Concat(Box::new(e), Box::new(f)), k)
            } else {
                Err(ParseError::UnexpectedEnd)
            },
            Err(x) => Err(x),
        }
    } else {
        Ok((e, j))
    }
}

/// term := factor factor*
pub open spec fn term_of(t: Seq<Token>, i: int) -> Result<(RegexAST, int), ParseError>
    decreases t.len() - i, 3nat,
{
    if !(0 <= i <= t.len()) {
        Err(ParseError::UnexpectedEnd)
    } else {
        match factor_of(t, i) {
            Ok((e, j)) => if i < j <= t.len() {
                term_rest_of(t, e, j)
            } else {
                Err(ParseError::UnexpectedEnd)
            },
            Err(x) => Err(x),
        }
    }
}

/// The `+ term` parts that follow `e` at `j`, each joined by a union.
/// (A term always consumes a token; the inner last branch is never taken.)
pub open spec fn expr_rest_of(t: Seq<Token>, e: RegexAST, j: int) -> Result<(RegexAST, int), ParseError>
    decreases t.len() - j, 4nat,
{
    if !(0 <= j <= t.len()) {
        Err(ParseError::UnexpectedEnd)
    } else if j < t.len() && t[j] == Token::Plus {
        match term_of(t, j + 1) {
            Ok((f, k)) => if j < k <= t.len() {
                expr_rest_of(t, RegexAST::Union(Box::new(e), Box::new(f)), k)
            } else {
                Err(ParseError::UnexpectedEnd)
            },
            Err(x) => Err(x),
        }
    } else {
        Ok((e, j))
    }
}

/// expr := term ('+' term)*
pub open spec fn expr_of(t: Seq<Token>, i: int) -> Result<(RegexAST, int), ParseError>
    decreases t.len() - i, 5nat,
{
    if !(0 <= i <= t.len()) {
        Err(ParseError::UnexpectedEnd)
    } else {
        match term_of(t, i) {
            Ok((e, j)) => if i < j <= t.len() {
                expr_rest_of(t, e, j)
            } else {
                Err(ParseError::UnexpectedEnd)
            },
            Err(x) => Err(x),
        }
    }
}

/// What parsing a whole token list gives: the expression, if it takes every
/// token; the first token left over otherwise; or the error met on the way.
pub open spec fn parse_result(t: Seq<Token>) -> Result<RegexAST, ParseError> {
    match expr_of(t, 0) {
        Ok((e, j)) => if j == t.len() {
            Ok(e)
        } else {
            Err(ParseError::UnexpectedToken(t[j]))
        },
        Err(x) => Err(x),
    }
}

/// Recursive-descent parser over a token list. Union (`+`) binds loosest,
/// then concatenation, then star; parentheses group.
pub struct Parser {
    tokens: Vec<Token>,
    pos: usize,
}

impl Parser {
    /// The tokens being parsed.
    pub closed spec fn toks(&self) -> Seq<Token> {
        self.tokens@
    }

    /// The position of the next token.
    pub closed spec fn at(&self) -> nat {
        self.pos as nat
    }

    /// The parser never runs past the end.
    pub closed spec fn inv(&self) -> bool {
        self.pos <= self.tokens@.len()
    }

    pub fn new(tokens: Vec<Token>) -> (p: Parser)
        ensures
            p.toks() == tokens@,
            p.at() == 0,
            p.inv(),
    {
        Parser { tokens, pos: 0 }
    }

    fn peek(&self) -> (r: Option<&Token>)
        requires
            self.inv(),
        ensures
            self.at() < self.toks().len() ==> r == Some(&self.toks()[self.at() as int]),
            self.at() >= self.toks().len() ==> r is None,
    {
        if self.pos < self.tokens.len() {
            Some(&self.tokens[self.pos])
        } else {
            None
        }
    }

    fn consume(&mut self) -> (r: Option<Token>)
        requires
            old(self).inv(),
        ensures
            final(self).inv(),
            final(self).toks() == old(self).toks(),
            old(self).at() < old(self).toks().len() ==> r == Some(old(self).toks()[old(self).at() as int])
                && final(self).at() == old(self).at() + 1,
            old(self).at() >= old(self).toks().len() ==> r is None && final(self).at() == old(self).at(),
    {
        if self.pos < self.tokens.len() {
            let t = self.tokens[self.pos];
            self.pos = self.pos + 1;
            Some(t)
        } else {
            None
        }
    }

    fn expect(&mut self, token: &Token) -> (r: Result<(), ParseError>)
        requires
            old(self).inv(),
        ensures
            final(self).inv(),
            final(self).toks() == old(self).toks(),
            old(self).at() >= old(self).toks().len() ==> r matches Err(ParseError::UnexpectedEnd),
            old(self).at() < old(self).toks().len() && old(self).toks()[old(self).at() as int] == *token
                ==> r is Ok && final(self).at() == old(self).at() + 1,
            old(self).at() < old(self).toks().len() && old(self).toks()[old(self).at() as int] != *token
                ==> r == Err::<(), ParseError>(ParseError::UnexpectedToken(old(self).toks()[old(self).at() as int])),
            r is Err ==> final(self).at() == old(self).at(),
    {
        match self.peek() {
            Some(t) => {
                if *t == *token {
                    self.consume();
                    Ok(())
                } else {
                    Err(ParseError::UnexpectedToken(*t))
                }
            },
            None => Err(ParseError::UnexpectedEnd),
        }
    }

    /// expr := term ('+' term)*
    pub fn parse_expr(&mut self) -> (r: Result<RegexAST, ParseError>)
        requires
            old(self).inv(),
        ensures
            final(self).inv(),
            final(self).toks() == old(self).toks(),
            old(self).at() <= final(self).at(),
            r is Ok ==> old(self).at() < final(self).at(),
            old(self).at() >= old(self).toks().len() ==> r matches Err(ParseError::UnexpectedEnd),
            match expr_of(old(self).toks(), old(self).at() as int) {
                Ok((e, j)) => r == Ok::<RegexAST, ParseError>(e) && final(self).at() == j,
                Err(x) => r == Err::<RegexAST, ParseError>(x),
            },
        decreases old(self).toks().len() - old(self).at(), 3nat,
    {
        let mut node = match self.parse_term() {
            Ok(v) => v,
            Err(x) => {
                return Err(x);
            },
        };
        let ghost start = old(self).at();
        loop
            invariant
                self.inv(),
                self.toks() == old(self).toks(),
                start < self.at(),
                start == old(self).at(),
                expr_of(self.toks(), start as int) == expr_rest_of(self.toks(), node, self.at() as int),
            ensures
                expr_of(self.toks(), start as int) == expr_rest_of(self.toks(), node, self.at() as int),
                !(self.at() < self.toks().len() && self.toks()[self.at() as int] == Token::Plus),
                self.inv(),
                self.toks() == old(self).toks(),
                start < self.at(),
            decreases self.toks().len() - self.at(),
        {
            match self.peek() {
                Some(Token::Plus) => {},
                _ => break,
            }
            self.consume();
            let rhs = match self.parse_term() {
                Ok(v) => v,
                Err(x) => {
                    return Err(x);
                },
            };
            node = RegexAST::Union(Box::new(node), Box::new(rhs));
        }
        Ok(node)
    }

    /// term := factor factor*
    pub fn parse_term(&mut self) -> (r: Result<RegexAST, ParseError>)
        requires
            old(self).inv(),
        ensures
            final(self).inv(),
            final(self).toks() == old(self).toks(),
            old(self).at() <= final(self).at(),
            r is Ok ==> old(self).at() < final(self).at(),
            old(self).at() >= old(self).toks().len() ==> r matches Err(ParseError::UnexpectedEnd),
            match term_of(old(self).toks(), old(self).at() as int) {
                Ok((e, j)) => r == Ok::<RegexAST, ParseError>(e) && final(self).at() == j,
                Err(x) => r == Err::<RegexAST, ParseError>(x),
            },
        decreases old(self).toks().len() - old(self).at(), 2nat,
    {
        let mut node = match self.parse_factor() {
            Ok(v) => v,
            Err(x) => {
                return Err(x);
            },
        };
        let ghost start = old(self).at();
        loop
            invariant
                self.inv(),
                self.toks() == old(self).toks(),
                start < self.at(),
                start == old(self).at(),
                term_of(self.toks(), start as int) == term_rest_of(self.toks(), node, self.at() as int),
            ensures
                term_of(self.toks(), start as int) == term_rest_of(self.toks(), node, self.at() as int),
                !(self.at() < self.toks().len() && (self.toks()[self.at() as int] is Char || self.toks()[self.at() as int] == Token::LParen)),
                self.inv(),
                self.toks() == old(self).toks(),
                start < self.at(),
            decreases self.toks().len() - self.at(),
        {
            match self.peek() {
                Some(Token::Char(_)) | Some(Token::LParen) => {},
                _ => break,
            }
            let rhs = match self.parse_factor() {
                Ok(v) => v,
                Err(x) => {
                    return Err(x);
                },
            };
            node = RegexAST::Concat(Box::new(node), Box::new(rhs));
        }
        Ok(node)
    }

    /// factor := primary '*'*
    pub fn parse_factor(&mut self) -> (r: Result<RegexAST, ParseError>)
        requires
            old(self).inv(),
        ensures
            final(self).inv(),
            final(self).toks() == old(self).toks(),
            old(self).at() <= final(self).at(),
            r is Ok ==> old(self).at() < final(self).at(),
            old(self).at() >= old(self).toks().len() ==> r matches Err(ParseError::UnexpectedEnd),
            match factor_of(old(self).toks(), old(self).at() as int) {
                Ok((e, j)) => r == Ok::<RegexAST, ParseError>(e) && final(self).at() == j,
                Err(x) => r == Err::<RegexAST, ParseError>(x),
            },
        decreases old(self).toks().len() - old(self).at(), 1nat,
    {
        let mut node = match self.parse_primary() {
            Ok(v) => v,
            Err(x) => {
                return Err(x);
            },
        };
        let ghost start = old(self).at();
        proof {
            assert(factor_of(self.toks(), start as int) == Ok::<(RegexAST, int), ParseError>(stars_of(self.toks(), node, self.at() as int)));
        }
        loop
            invariant
                self.inv(),
                self.toks() == old(self).toks(),
                start < self.at(),
                start == old(self).at(),
                factor_of(self.toks(), start as int) == Ok::<(RegexAST, int), ParseError>(stars_of(self.toks(), node, self.at() as int)),
            ensures
                factor_of(self.toks(), start as int) == Ok::<(RegexAST, int), ParseError>(stars_of(self.toks(), node, self.at() as int)),
                !(self.at() < self.toks().len() && self.toks()[self.at() as int] == Token::Star),
                self.inv(),
                self.toks() == old(self).toks(),
                start < self.at(),
            decreases self.toks().len() - self.at(),
        {
            match self.peek() {
                Some(Token::Star) => {},
                _ => break,
            }
            self.consume();
            node = RegexAST::Star(Box::new(node));
        }
        Ok(node)
    }

    /// primary := char | '(' expr ')'
    pub fn parse_primary(&mut self) -> (r: Result<RegexAST, ParseError>)
        requires
            old(self).inv(),
        ensures
            final(self).inv(),
            final(self).toks() == old(self).toks(),
            old(self).at() <= final(self).at(),
            r is Ok ==> old(self).at() < final(self).at(),
            old(self).at() >= old(self).toks().len() ==> r matches Err(ParseError::UnexpectedEnd),
            match primary_of(old(self).toks(), old(self).at() as int) {
                Ok((e, j)) => r == Ok::<RegexAST, ParseError>(e) && final(self).at() == j,
                Err(x) => r == Err::<RegexAST, ParseError>(x),
            },
        decreases old(self).toks().len() - old(self).at(), 0nat,
    {
        match self.consume() {
            Some(Token::Char(c)) => Ok(RegexAST::Char(c)),
            Some(Token::LParen) => {
                let node = match self.parse_expr() {
                    Ok(v) => v,
                    Err(x) => {
                        return Err(x);
                    },
                };
                match self.expect(&Token::RParen) {
                    Ok(()) => {},
                    Err(x) => {
                        return Err(x);
                    },
                }
                Ok(node)
            },
            Some(t) => Err(ParseError::UnexpectedToken(t)),
            None => Err(ParseError::UnexpectedEnd),
        }
    }
}

/// Parses a whole pattern: it must be one expression with nothing left over.
pub fn parse_language(input: &str) -> (r: Result<RegexAST, ParseError>)
    requires
        forall|i: int| 0 <= i < input@.len() ==> pattern_char(#[trigger] input@[i]),
    ensures
        r == parse_result(tokens_of(input@)),
{
    let tokens = tokenize(input);
    let mut parser = Parser::new(tokens);
    let ast = match parser.parse_expr() {
        Ok(v) => v,
        Err(x) => {
            return Err(x);
        },
    };
    match parser.peek() {
        Some(t) => Err(ParseError::UnexpectedToken(*t)),
        None => Ok(ast),
    }
}

} // verus!
