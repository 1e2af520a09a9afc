//! Totals of count sequences, shared by the analyzers that accumulate
//! histograms and frequency matrices.
use vstd::prelude::*;

verus! {

/// The total of a sequence of counts.
pub open spec fn sum_counts(c: Seq<u64>) -> int
    decreases c.len(),
{
    if c.len() == 0 {
        0
    } else {
        sum_counts(c.drop_last()) + c.last()
    }
}

/// A total of counts is never negative.
pub proof fn lemma_sum_nonneg(c: Seq<u64>)
    ensures
        sum_counts(c) >= 0,
    decreases c.len(),
{
    if c.len() > 0 {
        lemma_sum_nonneg(c.drop_last());
    }
}

/// A total over all-zero counts is zero.
pub proof fn lemma_sum_zero(c: Seq<u64>)
    requires
        forall|k: int| 0 <= k < c.len() ==> c[k] == 0,
    ensures
        sum_counts(c) == 0,
    decreases c.len(),
{
    if c.len() > 0 {
        lemma_sum_zero(c.drop_last());
    }
}

/// Replacing one count changes the total by the difference.
pub proof fn lemma_sum_update(c: Seq<u64>, k: int, v: u64)
    requires
        0 <= k < c.len(),
    ensures
        sum_counts(c.update(k, v)) == sum_counts(c) - c[k] + v,
    decreases c.len(),
{
    if k == c.len() - 1 {
        assert(c.update(k, v).drop_last() =~= c.drop_last());
    } else {
        assert(c.update(k, v).drop_last() =~= c.drop_last().update(k, v));
        lemma_sum_update(c.drop_last(), k, v);
    }
}

/// No count exceeds the total.
pub proof fn lemma_elem_le_sum(c: Seq<u64>, k: int)
    requires
        0 <= k < c.len(),
    ensures
        c[k] <= sum_counts(c),
    decreases c.len(),
{
    if k == c.len() - 1 {
        lemma_sum_nonneg(c.drop_last());
    } else {
        lemma_elem_le_sum(c.drop_last(), k);
    }
}

} // verus!
