//! Sums of bucket counters, and the facts about them that the histogram proofs use.
use vstd::prelude::*;

verus! {

/// The sum of a sequence of counters.
pub open spec fn seq_total(s: Seq<u64>) -> int
    decreases s.len(),
{
    if s.len() == 0 {
        0
    } else {
        seq_total(s.drop_last()) + s.last()
    }
}

/// A sum of counters is never negative.
pub proof fn lemma_total_nonneg(s: Seq<u64>)
    ensures
        seq_total(s) >= 0,
    decreases s.len(),
{
    if s.len() > 0 {
        lemma_total_nonneg(s.drop_last());
    }
}

/// Extending a prefix by one element adds that element.
pub proof fn lemma_total_take_step(s: Seq<u64>, k: int)
    requires
        0 <= k < s.len(),
    ensures
        seq_total(s.take(k + 1)) == seq_total(s.take(k)) + s[k],
{
    assert(s.take(k + 1).drop_last() =~= s.take(k));
}

/// The sum of a concatenation is the sum of the parts.
pub proof fn lemma_total_append(a: Seq<u64>, b: Seq<u64>)
    ensures
        seq_total(a + b) == seq_total(a) + seq_total(b),
    decreases b.len(),
{
    if b.len() == 0 {
        assert(a + b =~= a);
    } else {
        lemma_total_append(a, b.drop_last());
        assert((a + b).drop_last() =~= a + b.drop_last());
    }
}

/// Replacing one element changes the sum by the difference.
pub proof fn lemma_total_update(s: Seq<u64>, p: int, v: u64)
    requires
        0 <= p < s.len(),
    ensures
        seq_total(s.update(p, v)) == seq_total(s) - s[p] + v,
    decreases s.len(),
{
    if p == s.len() - 1 {
        assert(s.update(p, v).drop_last() =~= s.drop_last());
    } else {
        lemma_total_update(s.drop_last(), p, v);
        assert(s.update(p, v).drop_last() =~= s.drop_last().update(p, v));
    }
}

/// A sequence of zeros sums to zero.
pub proof fn lemma_total_zeros(s: Seq<u64>)
    requires
        forall|p: int| 0 <= p < s.len() ==> s[p] == 0,
    ensures
        seq_total(s) == 0,
    decreases s.len(),
{
    if s.len() > 0 {
        lemma_total_zeros(s.drop_last());
    }
}

/// A prefix never sums to more than the whole.
pub proof fn lemma_total_prefix_le(s: Seq<u64>, k: int)
    requires
        0 <= k <= s.len(),
    ensures
        seq_total(s.take(k)) <= seq_total(s),
{
    assert(s =~= s.take(k) + s.skip(k));
    lemma_total_append(s.take(k), s.skip(k));
    lemma_total_nonneg(s.skip(k));
}

/// Every element is at most the sum.
pub proof fn lemma_elem_le_total(s: Seq<u64>, p: int)
    requires
        0 <= p < s.len(),
    ensures
        s[p] <= seq_total(s),
{
    lemma_total_update(s, p, 0);
    lemma_total_nonneg(s.update(p, 0));
}

} // verus!
