//! Resumable quick sort: iterative Lomuto partitioning over an explicit
//! stack of `(low, high)` bounds.
//!
//! Each partition scans its range comparing against the pivot (the last
//! element); every swap during partitioning is a counted elementary
//! operation, including the final pivot placement.  The two non-degenerate
//! sub-ranges are pushed back onto the stack.  Terminal when the stack is
//! empty and no partition is in progress; by then every pair of positions
//! lies outside any pending range, so the array is sorted.

use vstd::prelude::*;
use crate::array::ArrayModel;
use crate::array::MAX_LEN;
use crate::sortspec::sorted;
use crate::TickResult;

verus! {

/// Positions `i` and `j` both lie inside one of the pending ranges.
pub open spec fn covered(rs: Seq<(usize, usize)>, i: int, j: int) -> bool {
    exists|k: int| 0 <= k < rs.len() && (#[trigger] rs[k]).0 <= i && j <= rs[k].1
}

/// Pending ranges never overlap.
pub open spec fn ranges_disjoint(rs: Seq<(usize, usize)>) -> bool {
    forall|k1: int, k2: int|
        0 <= k1 < k2 < rs.len() ==> ((#[trigger] rs[k1]).1 < (#[trigger] rs[k2]).0
            || rs[k2].1 < rs[k1].0)
}

/// Any two positions that do not share a pending range are already in
/// order: all the disorder left lives inside the pending ranges.
pub open spec fn partitioned(s: Seq<u16>, rs: Seq<(usize, usize)>) -> bool {
    forall|i: int, j: int|
        #![trigger s[i], s[j]]
        0 <= i < j < s.len() && !covered(rs, i, j) ==> s[i] <= s[j]
}

/// A pair with exactly one position inside the range `rs[ck]` is not
/// covered by any pending range.
proof fn lemma_cross_pair_not_covered(rs: Seq<(usize, usize)>, ck: int, a: int, b: int)
    requires
        ranges_disjoint(rs),
        0 <= ck < rs.len(),
        a <= b,
        (rs[ck].0 <= a <= rs[ck].1) != (rs[ck].0 <= b <= rs[ck].1),
    ensures
        !covered(rs, a, b),
{
    if covered(rs, a, b) {
        let k = choose|k: int| 0 <= k < rs.len() && (#[trigger] rs[k]).0 <= a && b <= rs[k].1;
        if k != ck {
            if k < ck {
                assert(rs[k].1 < rs[ck].0 || rs[ck].1 < rs[k].0);
            } else {
                assert(rs[ck].1 < rs[k].0 || rs[k].1 < rs[ck].0);
            }
        }
        assert(false);
    }
}

/// Swapping two positions inside one pending range preserves the order of
/// every pair not covered by a pending range.
proof fn lemma_swap_in_range_partitioned(
    s: Seq<u16>,
    s2: Seq<u16>,
    rs: Seq<(usize, usize)>,
    ck: int,
    u: int,
    v: int,
)
    requires
        ranges_disjoint(rs),
        partitioned(s, rs),
        0 <= ck < rs.len(),
        rs[ck].1 < s.len(),
        rs[ck].0 <= u <= rs[ck].1,
        rs[ck].0 <= v <= rs[ck].1,
        s2 == s.update(u, s[v]).update(v, s[u]),
    ensures
        partitioned(s2, rs),
{
    let lo = rs[ck].0 as int;
    let hi = rs[ck].1 as int;
    assert forall|x: int, y: int|
        0 <= x < y < s2.len() && !covered(rs, x, y) implies #[trigger] s2[x] <= #[trigger] s2[y] by {
        let x_in = lo <= x <= hi;
        let y_in = lo <= y <= hi;
        if x_in && y_in {
            assert((rs[ck]).0 <= x && y <= rs[ck].1);
            assert(false);
        } else if y_in {
            // x < lo: compare the old values now sitting at y.
            lemma_cross_pair_not_covered(rs, ck, x, u);
            lemma_cross_pair_not_covered(rs, ck, x, v);
            assert(s[x] <= s[u] && s[x] <= s[v] && s[x] <= s[y]);
        } else if x_in {
            // y > hi.
            lemma_cross_pair_not_covered(rs, ck, u, y);
            lemma_cross_pair_not_covered(rs, ck, v, y);
            assert(s[u] <= s[y] && s[v] <= s[y] && s[x] <= s[y]);
        } else {
            assert(s2[x] == s[x] && s2[y] == s[y]);
        }
    }
}

/// Weight of one pending range: the square of its size.  A partition of a
/// range of size `n` costs at most `n` counted swaps and leaves sub-ranges
/// whose weights sum to less than the range's own weight minus those
/// swaps, so the total weight bounds the counted work remaining.
pub open spec fn range_weight(e: (usize, usize)) -> int {
    (e.1 - e.0 + 1) * (e.1 - e.0 + 1)
}

/// Total weight of the stacked ranges.
pub open spec fn stack_weight(rs: Seq<(usize, usize)>) -> int
    decreases rs.len(),
{
    if rs.len() == 0 {
        0
    } else {
        stack_weight(rs.drop_last()) + range_weight(rs.last())
    }
}

proof fn lemma_stack_weight_push(rs: Seq<(usize, usize)>, e: (usize, usize))
    ensures
        stack_weight(rs.push(e)) == stack_weight(rs) + range_weight(e),
{
    assert(rs.push(e).drop_last() =~= rs);
    assert(rs.push(e).last() == e);
}

/// With every range well-formed (`low <= high`) the total weight is
/// non-negative.
pub proof fn lemma_stack_weight_nonneg(rs: Seq<(usize, usize)>)
    requires
        forall|k: int| 0 <= k < rs.len() ==> (#[trigger] rs[k]).0 <= rs[k].1,
    ensures
        stack_weight(rs) >= 0,
    decreases rs.len(),
{
    if rs.len() > 0 {
        lemma_stack_weight_nonneg(rs.drop_last());
        let e = rs.last();
        assert(e.0 <= e.1);
        assert((e.1 - e.0 + 1) * (e.1 - e.0 + 1) >= 0) by (nonlinear_arith)
            requires
                e.0 <= e.1,
        ;
    }
}

/// An in-progress Lomuto partition of `[l, h]` with pivot at `h`: `j` is
/// the scan cursor and `i` the boundary of the elements known to be at most
/// the pivot.
#[derive(Clone, Copy)]
pub struct Partition {
    pub l: usize,
    pub h: usize,
    pub i: usize,
    pub j: usize,
}

pub struct QuickEngine {
    /// Pending `(low, high)` inclusive bounds, still to be partitioned.
    pub stack: Vec<(usize, usize)>,
    /// The partition interrupted by budget exhaustion, if any.
    pub cur: Option<Partition>,
}

impl QuickEngine {
    /// All pending ranges: the stacked ones plus the one being scanned.
    pub open spec fn ranges(&self) -> Seq<(usize, usize)> {
        match self.cur {
            Some(p) => self.stack@.push((p.l, p.h)),
            None => self.stack@,
        }
    }

    pub open spec fn wf(&self, s: Seq<u16>) -> bool {
        &&& s.len() <= MAX_LEN
        &&& forall|k: int|
            0 <= k < self.ranges().len() ==> (#[trigger] self.ranges()[k]).0
                <= self.ranges()[k].1 < s.len()
        &&& ranges_disjoint(self.ranges())
        &&& partitioned(s, self.ranges())
        &&& match self.cur {
            Some(p) => {
                &&& p.l <= p.i <= p.j <= p.h < s.len()
                &&& forall|x: int| p.l <= x < p.i ==> #[trigger] s[x] <= s[p.h as int]
                &&& forall|y: int| p.i <= y < p.j ==> #[trigger] s[y] > s[p.h as int]
            },
            None => true,
        }
    }

    /// Loop measure for the scan of the current partition.
    pub open spec fn cur_measure(&self) -> int {
        match self.cur {
            Some(p) => p.h - p.j + 1,
            None => 0,
        }
    }

    /// Progress potential: total weight of the pending ranges, less the
    /// swaps the current partition has already spent.  Every counted swap
    /// decreases it, so every `Continue` tick decreases it by the whole
    /// budget.
    pub open spec fn spec_measure(&self) -> int {
        stack_weight(self.stack@) + match self.cur {
            Some(p) => range_weight((p.l, p.h)) - (p.i - p.l),
            None => 0,
        }
    }

    /// The potential never falls below zero.
    pub proof fn lemma_measure_nonneg(self, s: Seq<u16>)
        requires
            self.wf(s),
        ensures
            self.spec_measure() >= 0,
    {
        if let Some(p) = self.cur {
            assert(self.ranges()[self.stack@.len() as int] == (p.l, p.h));
            assert(p.l <= p.h);
            assert((p.h - p.l + 1) * (p.h - p.l + 1) >= (p.i - p.l)) by (nonlinear_arith)
                requires
                    p.l <= p.i <= p.h,
            ;
        }
        assert forall|k: int|
            0 <= k < self.stack@.len() implies (#[trigger] self.stack@[k]).0
            <= self.stack@[k].1 by {
            assert(self.ranges()[k] == self.stack@[k]);
        }
        lemma_stack_weight_nonneg(self.stack@);
    }

    /// Start with the whole array as the one pending range (nothing is
    /// pending for an empty array).
    pub fn new(a: &ArrayModel) -> (r: QuickEngine)
        requires
            a.wf(),
        ensures
            r.wf(a@),
    {
        let mut stack: Vec<(usize, usize)> = Vec::new();
        if a.len() >= 1 {
            stack.push((0, a.len() - 1));
        }
        let r = QuickEngine { stack, cur: None };
        proof {
            if a@.len() >= 1 {
                assert(r.ranges()[0] == (0usize, (a@.len() - 1) as usize));
                assert forall|i: int, j: int|
                    0 <= i < j < a@.len() implies covered(r.ranges(), i, j) by {
                    assert((r.ranges()[0]).0 <= i && j <= r.ranges()[0].1);
                }
            }
        }
        r
    }

    /// Perform up to `speed` swaps.  `Continue` means the budget was
    /// exhausted exactly; `Done` means the stack is empty and the array is
    /// sorted.  Partitioning only swaps, so the multiset of elements is
    /// preserved on every tick.  Every `Continue` tick strictly decreases
    /// [`Self::spec_measure`], which never falls below zero, so the
    /// animation completes after a bounded number of ticks even when the
    /// pivot lands on an existing boundary.
    #[verifier::rlimit(80)]
    pub fn tick(&mut self, a: &mut ArrayModel, speed: u16) -> (r: TickResult)
        requires
            old(self).wf(old(a)@),
            old(a).wf(),
            speed >= 1,
        ensures
            final(a).wf(),
            final(self).wf(final(a)@),
            final(a)@.len() == old(a)@.len(),
            final(a)@.to_multiset() == old(a)@.to_multiset(),
            final(a).spec_mods() <= speed as nat,
            r == TickResult::Continue ==> final(a).spec_mods() == speed as nat,
            r == TickResult::Done ==> final(self).stack@.len() == 0 && final(self).cur is None
                && sorted(final(a)@),
            r == TickResult::Continue ==> final(self).spec_measure() < old(self).spec_measure(),
    {
        a.reset_mods();
        loop
            invariant
                a.wf(),
                self.wf(a@),
                a@.len() == old(a)@.len(),
                a@.to_multiset() == old(a)@.to_multiset(),
                a.spec_mods() < speed as nat,
                speed >= 1,
                self.spec_measure() + a.spec_mods() <= old(self).spec_measure(),
            decreases
                speed as int - a.spec_mods(),
                self.stack@.len(),
                self.cur_measure(),
        {
            if let Some(p) = self.cur {
                let ghost s = a@;
                let ghost rs = self.ranges();
                let ghost ck = self.stack@.len() as int;
                if p.j < p.h {
                    if !a.compare(p.j, p.h) {
                        // a[j] is at most the pivot: grow the low side.
                        a.swap(p.i, p.j);
                        self.cur = Some(
                            Partition { l: p.l, h: p.h, i: p.i + 1, j: p.j + 1 },
                        );
                        proof {
                            let s2 = a@;
                            assert(self.ranges() =~= rs);
                            lemma_swap_in_range_partitioned(
                                s,
                                s2,
                                rs,
                                ck,
                                p.i as int,
                                p.j as int,
                            );
                            assert(s2[p.h as int] == s[p.h as int]);
                            let ghost hh = p.h as int;
                            assert forall|x: int| p.l <= x < p.i + 1 implies s2[x] <= s2[hh] by {
                                if x < p.i {
                                    assert(s2[x] == s[x]);
                                }
                            }
                            assert forall|y: int| p.i + 1 <= y < p.j + 1 implies s2[y] > s2[hh] by {
                                if y == p.j {
                                    assert(s2[y] == s[p.i as int]);
                                    assert(p.i < p.j ==> s[p.i as int] > s[p.h as int]);
                                }
                            }
                        }
                        if a.mods() == speed as usize {
                            return TickResult::Continue;
                        }
                    } else {
                        self.cur = Some(Partition { l: p.l, h: p.h, i: p.i, j: p.j + 1 });
                        proof {
                            assert(self.ranges() =~= rs);
                        }
                    }
                } else {
                    // Scan complete: place the pivot at the boundary (a
                    // counted swap even when it is already there), then
                    // push the non-degenerate sub-ranges.
                    let ghost ostack = self.stack@;
                    a.swap(p.i, p.h);
                    self.cur = None;
                    if p.i >= 1 && p.i - 1 > p.l {
                        self.stack.push((p.l, p.i - 1));
                    }
                    if p.i + 1 < p.h {
                        self.stack.push((p.i + 1, p.h));
                    }
                    proof {
                        let s2 = a@;
                        let rs2 = self.ranges();
                        let l = p.l as int;
                        let h = p.h as int;
                        let i0 = p.i as int;
                        let olen = ostack.len() as int;
                        lemma_swap_in_range_partitioned(s, s2, rs, ck, i0, h);
                        // The pivot now fences its range.
                        assert forall|x: int| l <= x < i0 implies s2[x] <= s2[i0] by {
                            assert(s2[x] == s[x]);
                        }
                        assert forall|y: int| i0 < y <= h implies s2[y] >= s2[i0] by {
                            if y < h {
                                assert(s2[y] == s[y]);
                            } else {
                                assert(s2[h] == s[i0]);
                                assert(i0 < h ==> s[i0] > s[h as int]);
                            }
                        }
                        // The new range list: the old stack plus the
                        // sub-ranges, all inside the finished range.
                        assert(forall|k: int| 0 <= k < olen ==> rs2[k] == ostack[k]);
                        assert(forall|k: int| 0 <= k < olen ==> rs2[k] == rs[k]);
                        assert forall|k: int|
                            olen <= k < rs2.len() implies l <= (#[trigger] rs2[k]).0
                                <= rs2[k].1 <= h && !(rs2[k].0 <= i0 <= rs2[k].1) by {}
                        assert forall|k: int|
                            0 <= k < rs2.len() implies (#[trigger] rs2[k]).0 <= rs2[k].1
                                < s2.len() by {
                            if k < olen {
                                assert(rs[k].0 <= rs[k].1 < s.len());
                            }
                        }
                        assert forall|k1: int, k2: int|
                            0 <= k1 < k2 < rs2.len() implies ((#[trigger] rs2[k1]).1 < (
                        #[trigger] rs2[k2]).0 || rs2[k2].1 < rs2[k1].0) by {
                            if k2 < olen {
                                assert(rs[k1].1 < rs[k2].0 || rs[k2].1 < rs[k1].0);
                            } else if k1 < olen {
                                // An old range is disjoint from the whole
                                // finished range, hence from its pieces.
                                assert(rs[k1].1 < rs[ck].0 || rs[ck].1 < rs[k1].0);
                            }
                        }
                        // Progress accounting: the finished range's weight
                        // pays for its swaps and for both sub-ranges.
                        let wl: int = (i0 - l) * (i0 - l);
                        let wr: int = (h - i0) * (h - i0);
                        assert(wl >= 0 && wr >= 0) by (nonlinear_arith)
                            requires
                                wl == (i0 - l) * (i0 - l),
                                wr == (h - i0) * (h - i0),
                        ;
                        if p.i >= 1 && p.i - 1 > p.l && p.i + 1 < p.h {
                            lemma_stack_weight_push(ostack, (p.l, (p.i - 1) as usize));
                            lemma_stack_weight_push(
                                ostack.push((p.l, (p.i - 1) as usize)),
                                ((p.i + 1) as usize, p.h),
                            );
                        } else if p.i >= 1 && p.i - 1 > p.l {
                            lemma_stack_weight_push(ostack, (p.l, (p.i - 1) as usize));
                        } else if p.i + 1 < p.h {
                            lemma_stack_weight_push(ostack, ((p.i + 1) as usize, p.h));
                        }
                        assert(stack_weight(self.stack@) <= stack_weight(ostack) + wl + wr);
                        assert(wl + wr <= (h - l + 1) * (h - l + 1) - (i0 - l) - 1)
                            by (nonlinear_arith)
                            requires
                                l <= i0 <= h,
                                wl == (i0 - l) * (i0 - l),
                                wr == (h - i0) * (h - i0),
                        ;
                        // Every pair not covered any more is now ordered.
                        assert forall|x: int, y: int|
                            0 <= x < y < s2.len() && !covered(rs2, x, y) implies #[trigger] s2[x]
                            <= #[trigger] s2[y] by {
                            if covered(rs, x, y) {
                                let k = choose|k: int|
                                    0 <= k < rs.len() && (#[trigger] rs[k]).0 <= x && y
                                        <= rs[k].1;
                                if k < olen {
                                    assert(rs2[k].0 <= x && y <= rs2[k].1);
                                    assert(covered(rs2, x, y));
                                    assert(false);
                                }
                                // The pair sits inside the finished range.
                                assert(l <= x && y <= h);
                                if y < i0 {
                                    // Both on the low side: that sub-range
                                    // was pushed, so the pair is covered.
                                    assert(rs2[olen] == (p.l, (p.i - 1) as usize));
                                    assert(rs2[olen].0 <= x && y <= rs2[olen].1);
                                    assert(covered(rs2, x, y));
                                    assert(false);
                                } else if x > i0 {
                                    let kr = rs2.len() - 1;
                                    assert(rs2[kr] == ((p.i + 1) as usize, p.h));
                                    assert(rs2[kr].0 <= x && y <= rs2[kr].1);
                                    assert(covered(rs2, x, y));
                                    assert(false);
                                } else {
                                    // The pair straddles the pivot.
                                    assert(x <= i0 <= y);
                                    assert(s2[x] <= s2[i0] && s2[i0] <= s2[y]);
                                }
                            }
                        }
                    }
                    if a.mods() == speed as usize {
                        return TickResult::Continue;
                    }
                }
            } else {
                let ghost rs = self.ranges();
                let ghost ostack = self.stack@;
                match self.stack.pop() {
                    Some(e) => {
                        self.cur = Some(Partition { l: e.0, h: e.1, i: e.0, j: e.0 });
                        proof {
                            assert(self.ranges() =~= rs);
                            assert(ostack =~= self.stack@.push(e));
                            lemma_stack_weight_push(self.stack@, e);
                        }
                    },
                    None => {
                        proof {
                            assert forall|i: int, j: int|
                                0 <= i <= j < a@.len() implies a@[i] <= a@[j] by {
                                if i < j {
                                    assert(!covered(self.ranges(), i, j));
                                }
                            }
                        }
                        return TickResult::Done;
                    },
                }
            }
        }
    }
}

} // verus!
