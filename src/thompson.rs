//! Thompson construction: each syntax node becomes a fragment with one
//! entry and one exit state, spliced to its parts by silent edges.
use crate::ast::RegexAST;
use crate::nfa::{StateID, TransitionLabel, NFA};
use vstd::prelude::*;

verus! {

/// Builds an automaton with silent edges from a syntax tree, fragment by fragment.
pub struct Thompson {
    pub nfa: NFA,
}

/// A piece of the automaton under construction, with one entry and one exit state.
struct Fragment {
    start: StateID,
    accept: StateID,
}

/// What a fragment built on top of `pre` guarantees: it adds exactly
/// `count` fresh states, leaves the earlier states untouched, keeps its edges
/// among its own states, and its exit state has no outgoing edge yet.
pub open spec fn fragment_laid(pre: NFA, post: NFA, start: usize, accept: usize, count: nat) -> bool {
    &&& post.n() == pre.n() + count
    &&& post.dense()
    &&& post.closed()
    &&& post.start == pre.start
    &&& pre.n() <= start < post.n()
    &&& pre.n() <= accept < post.n()
    &&& start != accept
    &&& post.edges(accept).len() == 0
    &&& forall|s: usize| (s as int) < pre.n() ==> post.edges(s) == pre.edges(s)
    &&& forall|s: usize, i: int|
        pre.n() <= s && 0 <= i < post.edges(s).len() ==> pre.n() <= (#[trigger] post.edges(s)[i]).1
}

/// The entry state of the fragment for `ast` when its states start at `lo`.
pub open spec fn frag_start(ast: RegexAST, lo: nat) -> nat
    decreases ast,
{
    match ast {
        RegexAST::Char(_) => lo,
        RegexAST::Concat(a, _) => frag_start(*a, lo),
        RegexAST::Union(a, b) => lo + a.state_count() + b.state_count(),
        RegexAST::Star(a) => lo + a.state_count(),
    }
}

/// The exit state of the fragment for `ast` when its states start at `lo`.
pub open spec fn frag_accept(ast: RegexAST, lo: nat) -> nat
    decreases ast,
{
    match ast {
        RegexAST::Char(_) => lo + 1,
        RegexAST::Concat(a, b) => frag_accept(*b, lo + a.state_count()),
        RegexAST::Union(a, b) => lo + a.state_count() + b.state_count() + 1,
        RegexAST::Star(a) => lo + a.state_count() + 1,
    }
}

/// A silent edge into `t`.
pub open spec fn eps(t: nat) -> (TransitionLabel, usize) {
    (TransitionLabel::Epsilon, t as usize)
}

/// The fragment for `ast`, with states from `lo`, stands in `nfa` with exactly
/// the edges the construction gives it, and its exit state has the edges `out`:
/// a literal `s --c--> t`; a concatenation links the exit of its left part to
/// the entry of its right part; a union gets a new entry with edges to both
/// parts' entries and a new exit that both parts' exits lead to; a star gets a
/// new entry with edges to its part's entry and to a new exit, and its part's
/// exit leads back to the part's entry and on to the new exit.
pub open spec fn shape(ast: RegexAST, lo: nat, nfa: NFA, out: Seq<(TransitionLabel, usize)>) -> bool
    decreases ast,
{
    match ast {
        RegexAST::Char(c) => nfa.edges(lo as usize) == seq![(TransitionLabel::Char(c), (lo + 1) as usize)]
            && nfa.edges((lo + 1) as usize) == out,
        RegexAST::Concat(a, b) => shape(*a, lo, nfa, seq![eps(frag_start(*b, lo + a.state_count()))])
            && shape(*b, lo + a.state_count(), nfa, out),
        RegexAST::Union(a, b) => {
            let s = lo + a.state_count() + b.state_count();
            &&& shape(*a, lo, nfa, seq![eps(s + 1)])
            &&& shape(*b, lo + a.state_count(), nfa, seq![eps(s + 1)])
            &&& nfa.edges(s as usize) == seq![eps(frag_start(*a, lo)), eps(frag_start(*b, lo + a.state_count()))]
            &&& nfa.edges((s + 1) as usize) == out
        },
        RegexAST::Star(a) => {
            let s = lo + a.state_count();
            &&& shape(*a, lo, nfa, seq![eps(frag_start(*a, lo)), eps(s + 1)])
            &&& nfa.edges(s as usize) == seq![eps(frag_start(*a, lo)), eps(s + 1)]
            &&& nfa.edges((s + 1) as usize) == out
        },
    }
}

pub proof fn lemma_frag_bounds(ast: RegexAST, lo: nat)
    ensures
        lo <= frag_start(ast, lo) < lo + ast.state_count(),
        lo <= frag_accept(ast, lo) < lo + ast.state_count(),
        frag_start(ast, lo) != frag_accept(ast, lo),
    decreases ast,
{
    match ast {
        RegexAST::Char(_) => {},
        RegexAST::Concat(a, b) => {
            lemma_frag_bounds(*a, lo);
            lemma_frag_bounds(*b, lo + a.state_count());
        },
        RegexAST::Union(a, b) => {
            lemma_frag_bounds(*a, lo);
            lemma_frag_bounds(*b, lo + a.state_count());
        },
        RegexAST::Star(a) => {
            lemma_frag_bounds(*a, lo);
        },
    }
}

/// The exit state of a fragment has exactly the edges `out`.
pub proof fn lemma_shape_out(ast: RegexAST, lo: nat, nfa: NFA, out: Seq<(TransitionLabel, usize)>)
    requires
        shape(ast, lo, nfa, out),
    ensures
        nfa.edges(frag_accept(ast, lo) as usize) == out,
    decreases ast,
{
    match ast {
        RegexAST::Concat(a, b) => {
            lemma_shape_out(*b, lo + a.state_count(), nfa, out);
        },
        _ => {},
    }
}

/// A fragment keeps its shape in an automaton that agrees on the edges of
/// all its states but the exit, whose edges may be replaced.
pub proof fn lemma_shape_frame(
    ast: RegexAST,
    lo: nat,
    n1: NFA,
    n2: NFA,
    out1: Seq<(TransitionLabel, usize)>,
    out2: Seq<(TransitionLabel, usize)>,
)
    requires
        shape(ast, lo, n1, out1),
        lo + ast.state_count() <= usize::MAX + 1,
        forall|x: usize| lo <= x < lo + ast.state_count() && x != frag_accept(ast, lo) ==> #[trigger] n2.edges(x) == n1.edges(x),
        n2.edges(frag_accept(ast, lo) as usize) == out2,
    ensures
        shape(ast, lo, n2, out2),
    decreases ast,
{
    lemma_frag_bounds(ast, lo);
    match ast {
        RegexAST::Char(_) => {
            assert(n2.edges(lo as usize) == n1.edges(lo as usize));
        },
        RegexAST::Concat(a, b) => {
            let lb = lo + a.state_count();
            let oa = seq![eps(frag_start(*b, lb))];
            lemma_frag_bounds(*a, lo);
            lemma_frag_bounds(*b, lb);
            lemma_shape_out(*a, lo, n1, oa);
            let xa = frag_accept(*a, lo) as usize;
            assert(n2.edges(xa) == n1.edges(xa));
            lemma_shape_frame(*a, lo, n1, n2, oa, oa);
            lemma_shape_frame(*b, lb, n1, n2, out1, out2);
        },
        RegexAST::Union(a, b) => {
            let lb = lo + a.state_count();
            let s = lb + b.state_count();
            let o = seq![eps(s + 1)];
            lemma_frag_bounds(*a, lo);
            lemma_frag_bounds(*b, lb);
            lemma_shape_out(*a, lo, n1, o);
            lemma_shape_out(*b, lb, n1, o);
            let xa = frag_accept(*a, lo) as usize;
            let xb = frag_accept(*b, lb) as usize;
            assert(n2.edges(xa) == n1.edges(xa));
            assert(n2.edges(xb) == n1.edges(xb));
            assert(n2.edges(s as usize) == n1.edges(s as usize));
            lemma_shape_frame(*a, lo, n1, n2, o, o);
            lemma_shape_frame(*b, lb, n1, n2, o, o);
        },
        RegexAST::Star(a) => {
            let s = lo + a.state_count();
            let o = seq![eps(frag_start(*a, lo)), eps(s + 1)];
            lemma_frag_bounds(*a, lo);
            lemma_shape_out(*a, lo, n1, o);
            let xa = frag_accept(*a, lo) as usize;
            assert(n2.edges(xa) == n1.edges(xa));
            assert(n2.edges(s as usize) == n1.edges(s as usize));
            lemma_shape_frame(*a, lo, n1, n2, o, o);
        },
    }
}

impl Thompson {
    pub fn new() -> (r: Thompson)
        ensures
            r.nfa.n() == 0,
            r.nfa.start == 0,
            r.nfa.accept@ == Seq::<usize>::empty(),
            r.nfa.dense(),
            r.nfa.closed(),
    {
        Thompson { nfa: NFA::new() }
    }

    fn new_state(&mut self) -> (id: StateID)
        requires
            old(self).nfa.dense(),
            old(self).nfa.closed(),
            old(self).nfa.n() < usize::MAX,
        ensures
            id as int == old(self).nfa.n(),
            final(self).nfa.n() == old(self).nfa.n() + 1,
            final(self).nfa.dense(),
            final(self).nfa.closed(),
            final(self).nfa.start == old(self).nfa.start,
            final(self).nfa.accept == old(self).nfa.accept,
            final(self).nfa.edges(id).len() == 0,
            forall|s: usize| s != id ==> final(self).nfa.edges(s) == old(self).nfa.edges(s),
    {
        let id = self.nfa.add_state();
        assert forall|s: usize| s != id implies self.nfa.edges(s) == old(self).nfa.edges(s) by {
            if self.nfa.transitions@.contains_key(s) {
                assert(old(self).nfa.transitions@.contains_key(s));
            }
        }
        id
    }

    fn add_label(&mut self, from: StateID, label: TransitionLabel, to: StateID)
        requires
            old(self).nfa.dense(),
            old(self).nfa.closed(),
            (from as int) < old(self).nfa.n(),
            (to as int) < old(self).nfa.n(),
        ensures
            final(self).nfa.n() == old(self).nfa.n(),
            final(self).nfa.dense(),
            final(self).nfa.closed(),
            final(self).nfa.start == old(self).nfa.start,
            final(self).nfa.accept == old(self).nfa.accept,
            final(self).nfa.edges(from) == old(self).nfa.edges(from).push((label, to)),
            forall|s: usize| s != from ==> final(self).nfa.edges(s) == old(self).nfa.edges(s),
    {
        self.nfa.add_edge(from, label, to);
        assert(self.nfa.transitions@.dom() =~= old(self).nfa.transitions@.dom());
        assert forall|s: usize| s != from implies self.nfa.edges(s) == old(self).nfa.edges(s) by {}
        assert forall|s: usize, i: int| 0 <= i < self.nfa.edges(s).len()
            implies (#[trigger] self.nfa.edges(s)[i]).1 < self.nfa.n() by {
            if s == from && i == self.nfa.edges(s).len() - 1 {
            } else {
                assert(self.nfa.edges(s)[i] == old(self).nfa.edges(s)[i]);
            }
        }
    }

    fn add_epsilon(&mut self, from: StateID, to: StateID)
        requires
            old(self).nfa.dense(),
            old(self).nfa.closed(),
            (from as int) < old(self).nfa.n(),
            (to as int) < old(self).nfa.n(),
        ensures
            final(self).nfa.n() == old(self).nfa.n(),
            final(self).nfa.dense(),
            final(self).nfa.closed(),
            final(self).nfa.start == old(self).nfa.start,
            final(self).nfa.accept == old(self).nfa.accept,
            final(self).nfa.edges(from) == old(self).nfa.edges(from).push((TransitionLabel::Epsilon, to)),
            forall|s: usize| s != from ==> final(self).nfa.edges(s) == old(self).nfa.edges(s),
    {
        self.add_label(from, TransitionLabel::Epsilon, to);
    }

    fn add_char(&mut self, from: StateID, c: char, to: StateID)
        requires
            old(self).nfa.dense(),
            old(self).nfa.closed(),
            (from as int) < old(self).nfa.n(),
            (to as int) < old(self).nfa.n(),
        ensures
            final(self).nfa.n() == old(self).nfa.n(),
            final(self).nfa.dense(),
            final(self).nfa.closed(),
            final(self).nfa.start == old(self).nfa.start,
            final(self).nfa.accept == old(self).nfa.accept,
            final(self).nfa.edges(from) == old(self).nfa.edges(from).push((TransitionLabel::Char(c), to)),
            forall|s: usize| s != from ==> final(self).nfa.edges(s) == old(self).nfa.edges(s),
    {
        self.add_label(from, TransitionLabel::Char(c), to);
    }

    /// Compiles `ast` into a fresh automaton: its states are exactly the ones
    /// the construction allocates, its single accept state has no outgoing edge.
    pub fn from_ast(self, ast: &RegexAST) -> (r: NFA)
        requires
            self.nfa.dense(),
            self.nfa.closed(),
            self.nfa.n() == 0,
            ast.state_count() <= usize::MAX,
        ensures
            r.wf(),
            r.n() == ast.state_count(),
            r.accept@.len() == 1,
            r.start != r.accept@[0],
            r.edges(r.accept@[0]).len() == 0,
            r.start as nat == frag_start(*ast, 0),
            r.accept@ == seq![frag_accept(*ast, 0) as usize],
            shape(*ast, 0, r, Seq::empty()),
    {
        let mut this = self;
        let frag = this.build(ast);
        let mut nfa = this.nfa;
        nfa.start = frag.start;
        nfa.accept = vec![frag.accept];
        assert(nfa.transitions@ == this.nfa.transitions@);
        proof {
            lemma_frag_bounds(*ast, 0);
            lemma_shape_out(*ast, 0, this.nfa, Seq::empty());
            assert forall|x: usize| 0 <= x < ast.state_count() && x != frag_accept(*ast, 0)
                implies #[trigger] nfa.edges(x) == this.nfa.edges(x) by {}
            lemma_shape_frame(*ast, 0, this.nfa, nfa, Seq::empty(), Seq::empty());
        }
        assert(nfa.closed()) by {
            assert forall|s: usize, i: int| 0 <= i < nfa.edges(s).len()
                implies (#[trigger] nfa.edges(s)[i]).1 < nfa.n() by {
                assert(nfa.edges(s) == this.nfa.edges(s));
            }
        }
        nfa
    }

    fn build(&mut self, ast: &RegexAST) -> (f: Fragment)
        requires
            old(self).nfa.dense(),
            old(self).nfa.closed(),
            old(self).nfa.n() + ast.state_count() <= usize::MAX,
        ensures
            fragment_laid(old(self).nfa, final(self).nfa, f.start, f.accept, ast.state_count()),
            final(self).nfa.accept == old(self).nfa.accept,
            f.start as nat == frag_start(*ast, old(self).nfa.n()),
            f.accept as nat == frag_accept(*ast, old(self).nfa.n()),
            shape(*ast, old(self).nfa.n(), final(self).nfa, Seq::empty()),
        decreases ast,
    {
        match ast {
            RegexAST::Char(c) => self.char_frag(*c),
            RegexAST::Concat(a, b) => {
                let ghost pre = self.nfa;
                let left = self.build(a);
                let ghost mid = self.nfa;
                let right = self.build(b);
                let ghost post_r = self.nfa;
                self.add_epsilon(left.accept, right.start);
                proof {
                    let lo = pre.n();
                    let fin = self.nfa;
                    lemma_frag_bounds(**a, lo);
                    lemma_frag_bounds(**b, mid.n());
                    lemma_shape_out(**a, lo, mid, Seq::empty());
                    lemma_shape_out(**b, mid.n(), post_r, Seq::empty());
                    assert(fin.edges(left.accept) =~= seq![eps(frag_start(**b, lo + a.state_count()))]);
                    assert forall|x: usize| lo <= x < lo + a.state_count() && x != frag_accept(**a, lo)
                        implies #[trigger] fin.edges(x) == mid.edges(x) by {
                        assert(fin.edges(x) == post_r.edges(x));
                    }
                    lemma_shape_frame(**a, lo, mid, fin, Seq::empty(), seq![eps(frag_start(**b, lo + a.state_count()))]);
                    assert forall|x: usize| mid.n() <= x < mid.n() + b.state_count() && x != frag_accept(**b, mid.n())
                        implies #[trigger] fin.edges(x) == post_r.edges(x) by {}
                    lemma_shape_frame(**b, mid.n(), post_r, fin, Seq::empty(), Seq::empty());
                }
                assert forall|s: usize, i: int|
                    pre.n() <= s && 0 <= i < self.nfa.edges(s).len()
                    implies pre.n() <= (#[trigger] self.nfa.edges(s)[i]).1 by {
                    if s == left.accept && i == self.nfa.edges(s).len() - 1 {
                    } else if (s as int) < mid.n() {
                        assert(self.nfa.edges(s)[i] == mid.edges(s)[i]);
                    } else {
                        assert(self.nfa.edges(s)[i] == post_r.edges(s)[i]);
                    }
                }
                Fragment { start: left.start, accept: right.accept }
            },
            RegexAST::Union(a, b) => {
                let ghost pre = self.nfa;
                let left = self.build(a);
                let ghost mid = self.nfa;
                let right = self.build(b);
                let ghost post_r = self.nfa;
                let s = self.new_state();
                let t = self.new_state();
                self.add_epsilon(s, left.start);
                self.add_epsilon(s, right.start);
                self.add_epsilon(left.accept, t);
                self.add_epsilon(right.accept, t);
                proof {
                    let lo = pre.n();
                    let fin = self.nfa;
                    let o = seq![eps(t as nat)];
                    lemma_frag_bounds(**a, lo);
                    lemma_frag_bounds(**b, mid.n());
                    lemma_shape_out(**a, lo, mid, Seq::empty());
                    lemma_shape_out(**b, mid.n(), post_r, Seq::empty());
                    assert(fin.edges(left.accept) =~= o);
                    assert(fin.edges(right.accept) =~= o);
                    assert(fin.edges(s) =~= seq![eps(frag_start(**a, lo)), eps(frag_start(**b, lo + a.state_count()))]);
                    assert(fin.edges(t) =~= Seq::<(TransitionLabel, usize)>::empty());
                    assert forall|x: usize| lo <= x < lo + a.state_count() && x != frag_accept(**a, lo)
                        implies #[trigger] fin.edges(x) == mid.edges(x) by {
                        assert(fin.edges(x) == post_r.edges(x));
                    }
                    lemma_shape_frame(**a, lo, mid, fin, Seq::empty(), o);
                    assert forall|x: usize| mid.n() <= x < mid.n() + b.state_count() && x != frag_accept(**b, mid.n())
                        implies #[trigger] fin.edges(x) == post_r.edges(x) by {}
                    lemma_shape_frame(**b, mid.n(), post_r, fin, Seq::empty(), o);
                }
                assert forall|x: usize, i: int|
                    pre.n() <= x && 0 <= i < self.nfa.edges(x).len()
                    implies pre.n() <= (#[trigger] self.nfa.edges(x)[i]).1 by {
                    if x == s || x == t || x == left.accept || x == right.accept {
                        if (x as int) < mid.n() && x != left.accept {
                            assert(self.nfa.edges(x)[i] == mid.edges(x)[i]);
                        } else if x != s && x != t && x != left.accept && x != right.accept {
                        } else if i < post_r.edges(x).len() {
                            assert(self.nfa.edges(x)[i] == post_r.edges(x)[i]);
                        }
                    } else if (x as int) < mid.n() {
                        assert(self.nfa.edges(x)[i] == mid.edges(x)[i]);
                    } else {
                        assert(self.nfa.edges(x)[i] == post_r.edges(x)[i]);
                    }
                }
                Fragment { start: s, accept: t }
            },
            RegexAST::Star(e) => {
                let ghost pre = self.nfa;
                let inner = self.build(e);
                let ghost mid = self.nfa;
                let s = self.new_state();
                let t = self.new_state();
                self.add_epsilon(s, inner.start);
                self.add_epsilon(inner.accept, inner.start);
                self.add_epsilon(s, t);
                self.add_epsilon(inner.accept, t);
                proof {
                    let lo = pre.n();
                    let fin = self.nfa;
                    let o = seq![eps(frag_start(**e, lo)), eps(t as nat)];
                    lemma_frag_bounds(**e, lo);
                    lemma_shape_out(**e, lo, mid, Seq::empty());
                    assert(fin.edges(inner.accept) =~= o);
                    assert(fin.edges(s) =~= o);
                    assert(fin.edges(t) =~= Seq::<(TransitionLabel, usize)>::empty());
                    assert forall|x: usize| lo <= x < lo + e.state_count() && x != frag_accept(**e, lo)
                        implies #[trigger] fin.edges(x) == mid.edges(x) by {}
                    lemma_shape_frame(**e, lo, mid, fin, Seq::empty(), o);
                }
                assert forall|x: usize, i: int|
                    pre.n() <= x && 0 <= i < self.nfa.edges(x).len()
                    implies pre.n() <= (#[trigger] self.nfa.edges(x)[i]).1 by {
                    if x != s && x != t && x != inner.accept {
                        assert(self.nfa.edges(x)[i] == mid.edges(x)[i]);
                    } else if x == inner.accept && i < mid.edges(x).len() {
                        assert(self.nfa.edges(x)[i] == mid.edges(x)[i]);
                    }
                }
                Fragment { start: s, accept: t }
            },
        }
    }

    fn char_frag(&mut self, c: char) -> (f: Fragment)
        requires
            old(self).nfa.dense(),
            old(self).nfa.closed(),
            old(self).nfa.n() + 2 <= usize::MAX,
        ensures
            fragment_laid(old(self).nfa, final(self).nfa, f.start, f.accept, 2),
            final(self).nfa.accept == old(self).nfa.accept,
            f.start as nat == old(self).nfa.n(),
            f.accept as nat == old(self).nfa.n() + 1,
            final(self).nfa.edges(f.start) == seq![(TransitionLabel::Char(c), f.accept)],
            final(self).nfa.edges(f.accept) == Seq::<(TransitionLabel, usize)>::empty(),
    {
        let s = self.new_state();
        let t = self.new_state();
        self.add_char(s, c, t);
        Fragment { start: s, accept: t }
    }
}

} // verus!
