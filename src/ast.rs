//! The regular-expression syntax tree the automata are built from.
use vstd::prelude::*;

verus! {

/// A regular expression over single characters.
#[derive(Debug)]
pub enum RegexAST {
    /// A single character literal.
    Char(char),
    /// Concatenation `AB`.
    Concat(Box<RegexAST>, Box<RegexAST>),
    /// Union `A + B`.
    Union(Box<RegexAST>, Box<RegexAST>),
    /// Kleene star `A*`.
    Star(Box<RegexAST>),
}

impl RegexAST {
    /// Number of states the Thompson construction allocates for this tree:
    /// two for every node but a concatenation, which only links its parts.
    pub open spec fn state_count(self) -> nat
        decreases self,
    {
        match self {
            RegexAST::Char(_) => 2,
            RegexAST::Concat(a, b) => a.state_count() + b.state_count(),
            RegexAST::Union(a, b) => a.state_count() + b.state_count() + 2,
            RegexAST::Star(a) => a.state_count() + 2,
        }
    }
}

/// The number of states the construction needs for `ast`, unless it does
/// not fit in a `usize`.
pub fn count_states(ast: &RegexAST) -> (r: Option<usize>)
    ensures
        r matches Some(n) ==> n == ast.state_count(),
        r is None ==> ast.state_count() > usize::MAX,
    decreases ast,
{
    match ast {
        RegexAST::Char(_) => Some(2),
        RegexAST::Concat(a, b) => match (count_states(a), count_states(b)) {
            (Some(x), Some(y)) => x.checked_add(y),
            _ => None,
        },
        RegexAST::Union(a, b) => match (count_states(a), count_states(b)) {
            (Some(x), Some(y)) => match x.checked_add(y) {
                Some(z) => z.checked_add(2),
                None => None,
            },
            _ => None,
        },
        RegexAST::Star(a) => match count_states(a) {
            Some(x) => x.checked_add(2),
            None => None,
        },
    }
}

} // verus!
