//! Writing automata in the DOT graph language.
use crate::dfa::DFA;
use crate::nfa::{TransitionLabel, NFA};
use std::collections::{HashMap, HashSet};
use vstd::prelude::*;
use vstd::std_specs::iter::IteratorSpec;
use vstd::string::StringExecFns;

verus! {

broadcast use vstd::std_specs::hash::group_hash_axioms;

/// The decimal digit `d`.
pub open spec fn digit(d: nat) -> char {
    if d == 0 { '0' } else if d == 1 { '1' } else if d == 2 { '2' } else if d == 3 { '3' } else if d == 4 { '4' }
    else if d == 5 { '5' } else if d == 6 { '6' } else if d == 7 { '7' } else if d == 8 { '8' } else { '9' }
}

/// The decimal numeral of `n`.
pub open spec fn decimal(n: nat) -> Seq<char>
    decreases n,
{
    if n < 10 {
        seq![digit(n)]
    } else {
        decimal(n / 10) + seq![digit(n % 10)]
    }
}

fn digit_text(d: usize) -> (r: &'static str)
    requires
        d < 10,
    ensures
        r@ == seq![digit(d as nat)],
{
    let r = if d == 0 { "0" } else if d == 1 { "1" } else if d == 2 { "2" } else if d == 3 { "3" } else if d == 4 { "4" }
        else if d == 5 { "5" } else if d == 6 { "6" } else if d == 7 { "7" } else if d == 8 { "8" } else { "9" };
    proof {
        reveal_strlit("0");
        reveal_strlit("1");
        reveal_strlit("2");
        reveal_strlit("3");
        reveal_strlit("4");
        reveal_strlit("5");
        reveal_strlit("6");
        reveal_strlit("7");
        reveal_strlit("8");
        reveal_strlit("9");
    }
    r
}

/// Appends the decimal numeral of `n`.
fn push_decimal(out: &mut String, n: usize)
    ensures
        final(out)@ == old(out)@ + decimal(n as nat),
    decreases n,
{
    if n >= 10 {
        push_decimal(out, n / 10);
    }
    out.append(digit_text(n % 10));
    proof {
        if n >= 10 {
            assert(final(out)@ =~= old(out)@ + decimal(n as nat));
        } else {
            assert(final(out)@ =~= old(out)@ + decimal(n as nat));
        }
    }
}

/// Relies on `char::to_string`: the string holding the one character `c`.
#[verifier::external_body]
pub(crate) fn char_text(c: char) -> (r: String)
    ensures
        r@ == seq![c],
{
    c.to_string()
}

/// A label character as written inside a quoted DOT label.
pub open spec fn escaped(c: char) -> Seq<char> {
    if c == '"' {
        seq!['\\', '"']
    } else {
        seq![c]
    }
}

fn escape(c: char) -> (r: String)
    ensures
        r@ == escaped(c),
{
    if c == '"' {
        let r = "\\\"".to_owned();
        proof {
            reveal_strlit("\\\"");
        }
        assert(r@ =~= escaped(c));
        r
    } else {
        char_text(c)
    }
}

/// The text of an edge label.
pub open spec fn label_text(l: TransitionLabel) -> Seq<char> {
    match l {
        TransitionLabel::Char(c) => escaped(c),
        TransitionLabel::Epsilon => "ε"@,
    }
}

/// The line for the edge `src -> dst` labelled `lbl`.
pub open spec fn edge_line(src: nat, dst: nat, lbl: Seq<char>) -> Seq<char> {
    "  "@ + decimal(src) + " -> "@ + decimal(dst) + " [label=\""@ + lbl + "\"];\n"@
}

/// The lines for the first `k` edges of state `src`.
pub open spec fn nfa_row_lines(src: nat, row: Seq<(TransitionLabel, usize)>, k: int) -> Seq<char>
    decreases k,
{
    if k <= 0 {
        Seq::empty()
    } else {
        nfa_row_lines(src, row, k - 1) + edge_line(src, row[k - 1].1 as nat, label_text(row[k - 1].0))
    }
}

/// The edge lines of states `0..k`, state by state.
pub open spec fn nfa_edge_lines(nfa: &NFA, k: nat) -> Seq<char>
    decreases k,
{
    if k == 0 {
        Seq::empty()
    } else {
        let s = (k - 1) as usize;
        nfa_edge_lines(nfa, (k - 1) as nat) + nfa_row_lines(s as nat, nfa.edges(s), nfa.edges(s).len() as int)
    }
}

/// The lines marking the first `k` states of `acc` as accepting.
pub open spec fn accept_lines(acc: Seq<usize>, k: int) -> Seq<char>
    decreases k,
{
    if k <= 0 {
        Seq::empty()
    } else {
        accept_lines(acc, k - 1) + "  "@ + decimal(acc[k - 1] as nat) + " [shape=doublecircle];\n"@
    }
}

/// The opening lines of a graph named `name` that starts at `start`.
pub open spec fn graph_head(name: Seq<char>, start: nat) -> Seq<char> {
    "digraph "@ + name + " {\n  rankdir=LR;\n  node [shape=circle];\n"@ + "  start [shape=point];\n  start -> "@
        + decimal(start) + ";\n"@
}

/// The DOT text of an automaton with silent edges.
pub open spec fn nfa_dot(nfa: &NFA) -> Seq<char> {
    graph_head("NFA"@, nfa.start as nat) + nfa_edge_lines(nfa, nfa.n()) + accept_lines(nfa.accept@, nfa.accept@.len() as int)
        + "}\n"@
}

fn push_head(out: &mut String, name: &str, start: usize)
    ensures
        final(out)@ == old(out)@ + graph_head(name@, start as nat),
{
    out.append("digraph ");
    out.append(name);
    out.append(" {\n  rankdir=LR;\n  node [shape=circle];\n");
    out.append("  start [shape=point];\n  start -> ");
    push_decimal(out, start);
    out.append(";\n");
    assert(final(out)@ =~= old(out)@ + graph_head(name@, start as nat));
}

fn push_edge(out: &mut String, src: usize, dst: usize, lbl: &String)
    ensures
        final(out)@ == old(out)@ + edge_line(src as nat, dst as nat, lbl@),
{
    out.append("  ");
    push_decimal(out, src);
    out.append(" -> ");
    push_decimal(out, dst);
    out.append(" [label=\"");
    out.append(lbl.as_str());
    out.append("\"];\n");
    assert(final(out)@ =~= old(out)@ + edge_line(src as nat, dst as nat, lbl@));
}

fn push_accepts(out: &mut String, acc: &Vec<usize>)
    ensures
        final(out)@ == old(out)@ + accept_lines(acc@, acc@.len() as int),
{
    for k in 0..acc.len()
        invariant
            out@ == old(out)@ + accept_lines(acc@, k as int),
    {
        out.append("  ");
        push_decimal(out, acc[k]);
        out.append(" [shape=doublecircle];\n");
        assert(out@ =~= old(out)@ + accept_lines(acc@, k + 1));
    }
}

/// Writes an automaton with silent edges in DOT: a start marker, every edge
/// state by state (silent ones labelled ε), then the accepting states.
pub fn nfa_to_dot(nfa: &NFA) -> (r: String)
    requires
        nfa.dense(),
    ensures
        r@ == nfa_dot(nfa),
{
    let mut out = String::new();
    push_head(&mut out, "NFA", nfa.start);
    let n = nfa.transitions.len();
    for s in 0..n
        invariant
            nfa.dense(),
            n as int == nfa.n(),
            out@ == graph_head("NFA"@, nfa.start as nat) + nfa_edge_lines(nfa, s as nat),
    {
        let edges = nfa.transitions.get(&s).unwrap();
        assert(edges@ == nfa.edges(s));
        let ghost before = out@;
        for j in 0..edges.len()
            invariant
                edges@ == nfa.edges(s),
                out@ == before + nfa_row_lines(s as nat, edges@, j as int),
        {
            let (label, dst) = edges[j];
            let lbl = match label {
                TransitionLabel::Char(c) => escape(c),
                TransitionLabel::Epsilon => {
                    let e = "ε".to_owned();
                    e
                },
            };
            assert(lbl@ == label_text(edges@[j as int].0));
            push_edge(&mut out, s, dst, &lbl);
            assert(out@ =~= before + nfa_row_lines(s as nat, edges@, j + 1));
        }
        assert(out@ =~= graph_head("NFA"@, nfa.start as nat) + nfa_edge_lines(nfa, (s + 1) as nat));
    }
    push_accepts(&mut out, &nfa.accept);
    out.append("}\n");
    assert(out@ =~= nfa_dot(nfa));
    out
}

/// The lines for the first `k` moves of state `src`.
pub open spec fn dfa_row_lines(src: nat, row: Seq<(char, usize)>, k: int) -> Seq<char>
    decreases k,
{
    if k <= 0 {
        Seq::empty()
    } else {
        dfa_row_lines(src, row, k - 1) + edge_line(src, row[k - 1].1 as nat, escaped(row[k - 1].0))
    }
}

/// The move lines of the first `k` rows of `rows`, row by row.
pub open spec fn dfa_edge_lines(rows: Seq<(usize, Seq<(char, usize)>)>, k: int) -> Seq<char>
    decreases k,
{
    if k <= 0 {
        Seq::empty()
    } else {
        dfa_edge_lines(rows, k - 1) + dfa_row_lines(rows[k - 1].0 as nat, rows[k - 1].1, rows[k - 1].1.len() as int)
    }
}

/// `rows` lists the table of `d`: one entry per state with a row, each with that row.
pub open spec fn lists_table(d: &DFA, rows: Seq<(usize, Seq<(char, usize)>)>) -> bool {
    &&& rows.len() == d.transitions@.dom().len()
    &&& forall|k: int| 0 <= k < rows.len() ==> d.transitions@.contains_key(#[trigger] rows[k].0) && d.transitions@[rows[k].0]@ == rows[k].1
    &&& forall|s: usize| #[trigger] d.transitions@.contains_key(s) ==> exists|k: int| 0 <= k < rows.len() && rows[k].0 == s
}

/// `acc` lists the accepting states of `d`, each once.
pub open spec fn lists_accepts(d: &DFA, acc: Seq<usize>) -> bool {
    &&& acc.no_duplicates()
    &&& forall|s: usize| #[trigger] acc.contains(s) <==> d.accepts@.contains(s)
}

/// The DOT text of a deterministic automaton whose rows and accepting states
/// are written in the orders `rows` and `acc`.
pub open spec fn dfa_dot(start: usize, rows: Seq<(usize, Seq<(char, usize)>)>, acc: Seq<usize>) -> Seq<char> {
    graph_head("DFA"@, start as nat) + dfa_edge_lines(rows, rows.len() as int) + accept_lines(acc, acc.len() as int) + "}\n"@
}

/// Writes a deterministic automaton in DOT: a start marker, every move row
/// by row in the order the table hands the rows out, then the accepting states.
pub fn dfa_to_dot(dfa: &DFA) -> (r: String)
    ensures
        exists|rows: Seq<(usize, Seq<(char, usize)>)>, acc: Seq<usize>|
            lists_table(dfa, rows) && lists_accepts(dfa, acc) && r@ == dfa_dot(dfa.start, rows, acc),
{
    let mut out = String::new();
    push_head(&mut out, "DFA", dfa.start);
    let ghost mut rows: Seq<(usize, Seq<(char, usize)>)> = Seq::empty();
    for pair in it: dfa.transitions.iter()
        invariant
            it.seq() == vstd::std_specs::hash::spec_hash_map_iter(&dfa.transitions).remaining(),
            rows.len() == it.index(),
            forall|k: int| 0 <= k < rows.len() ==> #[trigger] rows[k] == (*it.seq()[k].0, it.seq()[k].1@),
            out@ == graph_head("DFA"@, dfa.start as nat) + dfa_edge_lines(rows, rows.len() as int),
    {
        let (src, row) = pair;
        let ghost before = out@;
        for j in 0..row.len()
            invariant
                out@ == before + dfa_row_lines(*src as nat, row@, j as int),
        {
            let (c, dst) = row[j];
            let lbl = escape(c);
            push_edge(&mut out, *src, dst, &lbl);
            assert(out@ =~= before + dfa_row_lines(*src as nat, row@, j + 1));
        }
        proof {
            let r0 = rows;
            rows = rows.push((*src, row@));
            crate::bounds::lemma_push_facts(r0, (*src, row@));
            assert(dfa_edge_lines(rows, rows.len() as int) == dfa_edge_lines(r0, r0.len() as int) + dfa_row_lines(*src as nat, row@, row@.len() as int)) by {
                assert(dfa_edge_lines(rows, r0.len() as int) == dfa_edge_lines(r0, r0.len() as int)) by {
                    lemma_edge_lines_prefix(r0, rows, r0.len() as int);
                }
            }
        }
    }
    proof {
        let v = vstd::std_specs::hash::spec_hash_map_iter(&dfa.transitions).remaining();
        assert forall|k: int| 0 <= k < rows.len() implies dfa.transitions@.contains_key(#[trigger] rows[k].0) && dfa.transitions@[rows[k].0]@ == rows[k].1 by {
            assert(dfa.transitions@.contains_key(*v[k].0) && dfa.transitions@[*v[k].0] == *v[k].1);
        }
        assert forall|s: usize| #[trigger] dfa.transitions@.contains_key(s) implies exists|k: int| 0 <= k < rows.len() && rows[k].0 == s by {
            assert(v.contains((&s, &dfa.transitions@[s])));
            let k = choose|k: int| 0 <= k < v.len() && v[k] == (&s, &dfa.transitions@[s]);
            assert(rows[k].0 == s);
        }
    }
    let mut accepting: Vec<usize> = Vec::new();
    for a in it: dfa.accepts.iter()
        invariant
            it.seq() == vstd::std_specs::hash::spec_hash_keys_iter(&dfa.accepts).remaining(),
            accepting@.len() == it.index(),
            forall|k: int| 0 <= k < accepting@.len() ==> #[trigger] accepting@[k] == *it.seq()[k],
    {
        accepting.push(*a);
    }
    proof {
        let v = vstd::std_specs::hash::spec_hash_keys_iter(&dfa.accepts).remaining();
        assert(accepting@ =~= v.unref());
        assert(accepting@.to_set() =~= dfa.accepts@);
        assert(v.no_duplicates());
        assert forall|i: int, j: int| 0 <= i < accepting@.len() && 0 <= j < accepting@.len() && i != j implies accepting@[i] != accepting@[j] by {
            assert(v[i] != v[j]);
        }
    }
    push_accepts(&mut out, &accepting);
    out.append("}\n");
    assert(out@ =~= dfa_dot(dfa.start, rows, accepting@));
    out
}

proof fn lemma_edge_lines_prefix(a: Seq<(usize, Seq<(char, usize)>)>, b: Seq<(usize, Seq<(char, usize)>)>, k: int)
    requires
        0 <= k <= a.len(),
        k <= b.len(),
        forall|i: int| 0 <= i < k ==> a[i] == b[i],
    ensures
        dfa_edge_lines(a, k) == dfa_edge_lines(b, k),
    decreases k,
{
    if k > 0 {
        lemma_edge_lines_prefix(a, b, k - 1);
    }
}

} // verus!
