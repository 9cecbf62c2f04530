//! Shared ordering specifications for the step engines.

use vstd::prelude::*;

verus! {

/// The sequence is non-decreasing.
pub open spec fn sorted(s: Seq<u16>) -> bool {
    forall|i: int, j: int| 0 <= i <= j < s.len() ==> s[i] <= s[j]
}

/// Every adjacent pair in `s[lo..hi]` is non-decreasing.
pub open spec fn adjacent_sorted_between(s: Seq<u16>, lo: int, hi: int) -> bool {
    forall|k: int| lo < k < hi ==> #[trigger] s[k - 1] <= s[k]
}

proof fn lemma_adjacent_le(s: Seq<u16>, i: int, j: int)
    requires
        adjacent_sorted_between(s, 0, s.len() as int),
        0 <= i <= j < s.len(),
    ensures
        s[i] <= s[j],
    decreases j - i,
{
    if i < j {
        lemma_adjacent_le(s, i, j - 1);
    }
}

/// Every adjacent pair `(k, k + 1)` with `k` in `[lo, hi)` is
/// non-decreasing (so indices up to and including `hi` are involved).
pub open spec fn adjacent_pairs(s: Seq<u16>, lo: int, hi: int) -> bool {
    forall|k: int| lo <= k < hi ==> #[trigger] s[k] <= s[k + 1]
}

/// Within a run of non-decreasing adjacent pairs, any two positions are
/// ordered.
pub proof fn lemma_adjacent_pairs_le(s: Seq<u16>, lo: int, hi: int, i: int, j: int)
    requires
        adjacent_pairs(s, lo, hi),
        0 <= lo <= i <= j <= hi,
        hi < s.len(),
    ensures
        s[i] <= s[j],
    decreases j - i,
{
    if i < j {
        lemma_adjacent_pairs_le(s, lo, hi, i, j - 1);
    }
}

/// A sequence whose adjacent pairs are all non-decreasing is sorted.
pub proof fn lemma_adjacent_implies_sorted(s: Seq<u16>)
    requires
        adjacent_sorted_between(s, 0, s.len() as int),
    ensures
        sorted(s),
{
    assert forall|i: int, j: int| 0 <= i <= j < s.len() implies s[i] <= s[j] by {
        lemma_adjacent_le(s, i, j);
    }
}

/// There is exactly one sorted arrangement of a multiset of values: two
/// sorted sequences over the same multiset are equal.
pub proof fn lemma_sorted_permutation_unique(s1: Seq<u16>, s2: Seq<u16>)
    requires
        sorted(s1),
        sorted(s2),
        s1.to_multiset() == s2.to_multiset(),
    ensures
        s1 == s2,
{
    let leq = |x: u16, y: u16| x <= y;
    assert(vstd::relations::total_ordering(leq)) by {
        assert(vstd::relations::reflexive(leq));
        assert(vstd::relations::transitive(leq));
        assert(vstd::relations::antisymmetric(leq));
        assert(vstd::relations::strongly_connected(leq));
    }
    assert(vstd::relations::sorted_by(s1, leq));
    assert(vstd::relations::sorted_by(s2, leq));
    vstd::seq_lib::lemma_sorted_unique(s1, s2, leq);
    assert(s1 =~= s2);
}

/// Progress potential of the adjacent-swap engines: each element weighted
/// by its distance from the right end.  A swap of an out-of-order adjacent
/// pair strictly decreases it, and it never falls below zero, so it bounds
/// the number of swaps (and with it the number of full-budget ticks) still
/// to come.
pub open spec fn wsum(s: Seq<u16>) -> int
    decreases s.len(),
{
    if s.len() == 0 {
        0
    } else {
        (s.len() - 1) * s[0] + wsum(s.drop_first())
    }
}

/// Overwriting one element changes the potential by its weighted delta.
pub proof fn lemma_wsum_update(s: Seq<u16>, i: int, v: u16)
    requires
        0 <= i < s.len(),
    ensures
        wsum(s.update(i, v)) == wsum(s) + (s.len() - 1 - i) * (v - s[i]),
    decreases s.len(),
{
    let s2 = s.update(i, v);
    if i == 0 {
        assert(s2.drop_first() =~= s.drop_first());
        assert((s.len() - 1) * v == (s.len() - 1) * (s[0] as int) + (s.len() - 1 - 0) * (v - s[0]))
            by (nonlinear_arith);
    } else {
        assert(s2.drop_first() =~= s.drop_first().update(i - 1, v));
        lemma_wsum_update(s.drop_first(), i - 1, v);
        assert(s2[0] == s[0]);
    }
}

/// Swapping an out-of-order adjacent pair decreases the potential by
/// exactly the gap between the two values.
pub proof fn lemma_wsum_swap_adjacent(s: Seq<u16>, k: int)
    requires
        1 <= k < s.len(),
        s[k - 1] > s[k],
    ensures
        wsum(s.update(k - 1, s[k]).update(k, s[k - 1])) == wsum(s) - (s[k - 1] - s[k]),
{
    let s1 = s.update(k - 1, s[k]);
    lemma_wsum_update(s, k - 1, s[k]);
    lemma_wsum_update(s1, k, s[k - 1]);
    assert(s1[k] == s[k]);
    assert((s.len() - 1 - (k - 1)) * (s[k] - s[k - 1]) + (s.len() - 1 - k) * (s[k - 1] - s[k])
        == -((s[k - 1] - s[k]) as int)) by (nonlinear_arith);
}

/// The potential never falls below zero.
pub proof fn lemma_wsum_nonneg(s: Seq<u16>)
    ensures
        wsum(s) >= 0,
    decreases s.len(),
{
    if s.len() > 0 {
        lemma_wsum_nonneg(s.drop_first());
        assert((s.len() - 1) * s[0] >= 0) by (nonlinear_arith)
            requires
                s.len() >= 1,
                s[0] >= 0,
        ;
    }
}

} // verus!
