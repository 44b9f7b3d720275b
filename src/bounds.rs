//! Counting facts: distinct ids below a bound, distinct bit vectors of a
//! given length, and what pushing onto a sequence does.
use vstd::prelude::*;

verus! {

/// The ids below `n`.
pub open spec fn below(n: nat) -> Set<usize> {
    Set::new(|x: usize| (x as nat) < n)
}

pub proof fn lemma_below_finite(n: nat)
    requires
        n <= usize::MAX + 1,
    ensures
        below(n).finite(),
        below(n).len() == n,
    decreases n,
{
    if n == 0 {
        assert(below(0) =~= Set::empty());
    } else {
        lemma_below_finite((n - 1) as nat);
        assert(below(n) =~= below((n - 1) as nat).insert((n - 1) as usize));
    }
}

/// A list of distinct ids below `n` has at most `n` entries.
pub proof fn lemma_distinct_below(s: Seq<usize>, n: nat)
    requires
        s.no_duplicates(),
        n <= usize::MAX + 1,
        forall|i: int| 0 <= i < s.len() ==> (#[trigger] s[i] as nat) < n,
    ensures
        s.len() <= n,
{
    s.unique_seq_to_set();
    lemma_below_finite(n);
    assert(s.to_set().subset_of(below(n)));
    vstd::set_lib::lemma_len_subset(s.to_set(), below(n));
}

} // verus!

verus! {

/// Two to the power `n`.
pub open spec fn pow2(n: nat) -> nat
    decreases n,
{
    if n == 0 {
        1
    } else {
        2 * pow2((n - 1) as nat)
    }
}

/// The number a bit vector spells, least significant bit first.
pub open spec fn bits_value(b: Seq<bool>) -> nat
    decreases b.len(),
{
    if b.len() == 0 {
        0
    } else {
        (if b[0] { 1nat } else { 0nat }) + 2 * bits_value(b.drop_first())
    }
}

proof fn lemma_bits_value_bound(b: Seq<bool>)
    ensures
        bits_value(b) < pow2(b.len()),
    decreases b.len(),
{
    if b.len() > 0 {
        lemma_bits_value_bound(b.drop_first());
    }
}

proof fn lemma_bits_value_injective(a: Seq<bool>, b: Seq<bool>)
    requires
        a.len() == b.len(),
        bits_value(a) == bits_value(b),
    ensures
        a == b,
    decreases a.len(),
{
    if a.len() > 0 {
        assert(a[0] == b[0]);
        lemma_bits_value_injective(a.drop_first(), b.drop_first());
        assert(a =~= seq![a[0]] + a.drop_first());
        assert(b =~= seq![b[0]] + b.drop_first());
    } else {
        assert(a =~= b);
    }
}

/// Pairwise distinct bit vectors of length `n` number at most `2^n`.
pub proof fn lemma_distinct_bitvecs(s: Seq<Seq<bool>>, n: nat)
    requires
        forall|i: int| 0 <= i < s.len() ==> (#[trigger] s[i]).len() == n,
        forall|i: int, j: int| 0 <= i < s.len() && 0 <= j < s.len() && i != j ==> s[i] != s[j],
    ensures
        s.len() <= pow2(n),
{
    let m = s.map_values(|b: Seq<bool>| bits_value(b) as int);
    assert forall|i: int, j: int| 0 <= i < m.len() && 0 <= j < m.len() && i != j implies m[i] != m[j] by {
        if m[i] == m[j] {
            lemma_bits_value_injective(s[i], s[j]);
        }
    }
    assert(m.no_duplicates());
    m.unique_seq_to_set();
    vstd::set_lib::lemma_int_range(0, pow2(n) as int);
    assert forall|x: int| m.to_set().contains(x) implies vstd::set_lib::set_int_range(0, pow2(n) as int).contains(x) by {
        let i = choose|i: int| 0 <= i < m.len() && m[i] == x;
        lemma_bits_value_bound(s[i]);
    }
    vstd::set_lib::lemma_len_subset(m.to_set(), vstd::set_lib::set_int_range(0, pow2(n) as int));
}

pub proof fn lemma_pow2_positive(n: nat)
    ensures
        pow2(n) >= 1,
    decreases n,
{
    if n > 0 {
        lemma_pow2_positive((n - 1) as nat);
    }
}

/// A map whose keys are exactly the ids below `k` has `k` entries.
pub proof fn lemma_dense_len<V>(m: Map<usize, V>, k: nat)
    requires
        k <= usize::MAX + 1,
        forall|s: usize| #[trigger] m.contains_key(s) <==> (s as nat) < k,
    ensures
        m.len() == k,
{
    assert(m.dom() =~= below(k));
    lemma_below_finite(k);
}

/// What pushing onto a sequence does.
pub proof fn lemma_push_facts<A>(s: Seq<A>, a: A)
    ensures
        s.push(a).len() == s.len() + 1,
        s.push(a)[s.len() as int] == a,
        forall|i: int| 0 <= i < s.len() ==> s.push(a)[i] == s[i],
{
    assert forall|i: int| 0 <= i < s.len() implies s.push(a)[i] == s[i] by {
        vstd::seq::axiom_seq_push_index_different(s, a, i);
    }
    vstd::seq::axiom_seq_push_len(s, a);
    vstd::seq::axiom_seq_push_index_same(s, a, s.len() as int);
}

} // verus!
