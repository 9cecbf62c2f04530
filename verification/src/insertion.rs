//! Resumable insertion sort.
//!
//! State is the outer position `i`, the inner cursor `j`, and a flag that
//! marks the start of a new outer pass.  The element that began at `i`
//! swaps downward while it is smaller than its left neighbour; each such
//! swap is one counted elementary operation.  Terminal when `i` reaches the
//! array length.

use vstd::prelude::*;
use crate::array::ArrayModel;
use crate::array::MAX_LEN;
use crate::sortspec::lemma_wsum_swap_adjacent;
use crate::sortspec::sorted;
use crate::sortspec::wsum;
use crate::TickResult;

verus! {

/// The first `i` elements (clipped to the length) are in non-decreasing
/// order.
pub open spec fn prefix_sorted(s: Seq<u16>, i: int) -> bool {
    forall|x: int, y: int| 0 <= x <= y < i && y < s.len() ==> s[x] <= s[y]
}

/// Mid-insertion shape: positions `0..=i` are pairwise sorted once the
/// moving element at `j` is set aside, and the moving element is below
/// everything it has already swapped past.
pub open spec fn inner_ok(s: Seq<u16>, i: int, j: int) -> bool {
    &&& forall|x: int, y: int| 0 <= x < y <= i && x != j && y != j ==> s[x] <= s[y]
    &&& forall|y: int| j < y <= i ==> s[j] <= #[trigger] s[y]
}

pub struct InsertionEngine {
    /// Outer position: elements before `i` form a sorted prefix.
    pub i: usize,
    /// Inner cursor: current position of the element being inserted.
    pub j: usize,
    /// Set between outer passes; the next step seeds `j = i`.
    pub need_new_j: bool,
}

impl InsertionEngine {
    pub open spec fn wf(&self, s: Seq<u16>) -> bool {
        &&& s.len() <= MAX_LEN
        &&& 1 <= self.i
        &&& (self.i <= s.len() || self.i == 1)
        &&& (self.need_new_j ==> prefix_sorted(s, self.i as int))
        &&& (!self.need_new_j ==> self.i < s.len() && self.j <= self.i && inner_ok(
            s,
            self.i as int,
            self.j as int,
        ))
    }

    pub fn new(a: &ArrayModel) -> (r: InsertionEngine)
        requires
            a.wf(),
        ensures
            r.wf(a@),
    {
        InsertionEngine { i: 1, j: 1, need_new_j: true }
    }

    /// Perform up to `speed` swaps.  `Continue` means the budget was
    /// exhausted exactly; `Done` means the terminal condition was reached
    /// and the array is sorted.  The multiset of elements is preserved.
    /// Every `Continue` tick strictly decreases the [`wsum`] potential,
    /// which never falls below zero, so the animation completes after a
    /// bounded number of ticks; an array of at most one element (in
    /// particular an empty one) is `Done` on its very first tick with zero
    /// swaps.
    pub fn tick(&mut self, a: &mut ArrayModel, speed: u16) -> (r: TickResult)
        requires
            old(self).wf(old(a)@),
            old(a).wf(),
            speed >= 1,
        ensures
            final(a).wf(),
            final(self).wf(final(a)@),
            final(a)@.len() == old(a)@.len(),
            final(a)@.to_multiset() == old(a)@.to_multiset(),
            final(a).spec_mods() <= speed as nat,
            r == TickResult::Continue ==> final(a).spec_mods() == speed as nat,
            r == TickResult::Done ==> sorted(final(a)@),
            r == TickResult::Continue ==> wsum(final(a)@) < wsum(old(a)@),
            old(a)@.len() <= 1 ==> r == TickResult::Done && final(a).spec_mods() == 0,
    {
        a.reset_mods();
        loop
            invariant
                a.wf(),
                self.wf(a@),
                a@.len() == old(a)@.len(),
                a@.to_multiset() == old(a)@.to_multiset(),
                a.spec_mods() < speed as nat,
                speed >= 1,
                wsum(a@) + a.spec_mods() <= wsum(old(a)@),
                old(a)@.len() <= 1 ==> a.spec_mods() == 0,
            decreases
                speed as int - a.spec_mods(),
                (if self.i <= a@.len() { a@.len() - self.i } else { 0int }),
                (if self.need_new_j { 1int } else { 0int }),
        {
            let len: usize = a.len();
            if self.need_new_j {
                if self.i >= len {
                    return TickResult::Done;
                }
                self.j = self.i;
                self.need_new_j = false;
            } else if self.j > 0 && a.compare(self.j - 1, self.j) {
                let ghost s = a@;
                let ghost jj = self.j as int;
                a.swap(self.j - 1, self.j);
                self.j = self.j - 1;
                proof {
                    lemma_wsum_swap_adjacent(s, jj);
                    let s2 = a@;
                    let ii = self.i as int;
                    assert forall|x: int, y: int|
                        0 <= x < y <= ii && x != jj - 1 && y != jj - 1 implies s2[x] <= s2[y] by {
                        if y == jj {
                            assert(s2[y] == s[jj - 1]);
                            if x < jj - 1 {
                                assert(s[x] <= s[jj - 1]);
                            }
                        } else if x == jj {
                            assert(s2[x] == s[jj - 1]);
                            assert(s[jj - 1] <= s[y]);
                        }
                    }
                    assert forall|y: int| jj - 1 < y <= ii implies s2[jj - 1] <= #[trigger] s2[y] by {
                        if y == jj {
                            assert(s2[y] == s[jj - 1]);
                        } else {
                            assert(s[jj] <= s[y]);
                        }
                    }
                }
                if a.mods() == speed as usize {
                    return TickResult::Continue;
                }
            } else {
                proof {
                    let s = a@;
                    let ii = self.i as int;
                    let jj = self.j as int;
                    assert forall|x: int, y: int|
                        0 <= x <= y < ii + 1 && y < s.len() implies s[x] <= s[y] by {
                        if x == y {
                        } else if y == jj {
                            if x < jj - 1 {
                                assert(s[x] <= s[jj - 1]);
                                assert(s[jj - 1] <= s[jj]);
                            }
                        } else if x == jj {
                            assert(s[jj] <= s[y]);
                        }
                    }
                }
                self.i = self.i + 1;
                self.need_new_j = true;
            }
        }
    }
}

} // verus!
