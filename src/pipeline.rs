//! The whole compilation, from pattern text to a minimal automaton.
use crate::ast::count_states;
use crate::dfa::{nfa_to_dfa, subset_automaton, DFA};
use crate::dot::char_text;
use crate::epsilon_elimination::{closure_automaton, remove_epsilon};
use crate::minimize::{minimize_dfa, minimizes};
use crate::nfa::NFA;
use crate::parser::{parse_language, parse_result, ParseError};
use crate::thompson::{frag_accept, frag_start, shape, Thompson};
use crate::tokenizer::{find_unexpected, pattern_char, tokens_of};
use vstd::prelude::*;
use vstd::string::StringExecFns;

verus! {

/// Every stage of compiling one pattern.
pub struct FullOutput {
    pub enfa: NFA,
    pub nfa: NFA,
    pub dfa: DFA,
    pub mindfa: DFA,
}

/// Relies on `format!` with the derived `Debug` of the parse error: its text.
#[verifier::external_body]
fn debug_text(e: &ParseError) -> String {
    format!("{:?}", e)
}

/// The message for a pattern that does not parse.
fn parse_error_message(e: &ParseError) -> (r: String)
    ensures
        r@.len() >= "Parse error: "@.len(),
        r@.subrange(0, "Parse error: "@.len() as int) == "Parse error: "@,
{
    let mut r = "Parse error: ".to_owned();
    r.append(debug_text(e).as_str());
    assert(r@.subrange(0, "Parse error: "@.len() as int) =~= "Parse error: "@);
    r
}

/// The message for a character a pattern may not hold.
fn unexpected_char_message(c: char) -> (r: String)
    ensures
        r@ == "Unexpected character in regex: "@ + seq![c],
{
    let mut r = "Unexpected character in regex: ".to_owned();
    r.append(char_text(c).as_str());
    r
}

/// Compiles a pattern through every stage: parse, Thompson construction,
/// epsilon elimination, subset construction, minimization. A pattern with a
/// character outside the grammar, or one that does not parse, is an error.
/// The automaton with silent edges is the construction for the parsed tree,
/// and all four automata accept the same inputs.
pub fn full_pipeline(lang: &str) -> (r: Result<FullOutput, String>)
    ensures
        (exists|i: int| 0 <= i < lang@.len() && !pattern_char(#[trigger] lang@[i])) ==> r is Err,
        r is Ok <==> {
            &&& forall|i: int| 0 <= i < lang@.len() ==> pattern_char(#[trigger] lang@[i])
            &&& parse_result(tokens_of(lang@)) is Ok
            &&& parse_result(tokens_of(lang@))->Ok_0.state_count() <= usize::MAX
        },
        r matches Ok(out) ==> {
            let a = parse_result(tokens_of(lang@))->Ok_0;
            &&& out.enfa.n() == a.state_count()
            &&& out.enfa.start as nat == frag_start(a, 0)
            &&& out.enfa.accept@ == seq![frag_accept(a, 0) as usize]
            &&& shape(a, 0, out.enfa, Seq::empty())
        },
        r matches Ok(out) ==> out.enfa.wf() && out.nfa.wf() && out.nfa.epsilon_free(),
        r matches Ok(out) ==> exists|sets: Seq<Set<usize>>| closure_automaton(&out.enfa, &out.nfa, sets),
        r matches Ok(out) ==> exists|sets: Seq<Set<usize>>| subset_automaton(&out.nfa, &out.dfa, sets),
        r matches Ok(out) ==> minimizes(&out.dfa, &out.mindfa),
        r matches Ok(out) ==> forall|w: Seq<char>| {
            &&& #[trigger] out.mindfa.accepts_word(w) == out.enfa.accepts(w)
            &&& out.dfa.accepts_word(w) == out.enfa.accepts(w)
            &&& out.nfa.accepts(w) == out.enfa.accepts(w)
        },
{
    if let Some(c) = find_unexpected(lang) {
        return Err(unexpected_char_message(c));
    }
    let ast = match parse_language(lang) {
        Ok(a) => a,
        Err(e) => {
            return Err(parse_error_message(&e));
        },
    };
    if count_states(&ast).is_none() {
        return Err("Parse error: pattern too large".to_owned());
    }
    let enfa = Thompson::new().from_ast(&ast);
    let nfa = remove_epsilon(&enfa);
    let dfa = nfa_to_dfa(&nfa);
    let mindfa = minimize_dfa(&dfa);
    let ghost s1 = choose|sets: Seq<Set<usize>>| closure_automaton(&enfa, &nfa, sets);
    let ghost s2 = choose|sets: Seq<Set<usize>>| subset_automaton(&nfa, &dfa, sets) && sets.len() <= crate::bounds::pow2(nfa.n());
    let res: Result<FullOutput, String> = Ok(FullOutput { enfa, nfa, dfa, mindfa });
    proof {
        let out = res->Ok_0;
        assert(closure_automaton(&out.enfa, &out.nfa, s1));
        assert(subset_automaton(&out.nfa, &out.dfa, s2));
    }
    res
}

} // verus!
