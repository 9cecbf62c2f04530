//! Resumable bubble sort.
//!
//! State is the pass counter, the inner cursor, and an in-pass swap flag.
//! A pass compares each adjacent pair `(index - 1, index)`; when the cursor
//! reaches the end of the array, the pass is complete, and a pass that
//! performed no swap is the terminal condition.

use vstd::prelude::*;
use crate::array::ArrayModel;
use crate::array::MAX_LEN;
use crate::sortspec::lemma_adjacent_implies_sorted;
use crate::sortspec::lemma_wsum_swap_adjacent;
use crate::sortspec::sorted;
use crate::sortspec::wsum;
use crate::TickResult;

verus! {

pub struct BubbleEngine {
    /// Completed-pass counter (saturating; informational only).
    pub cycle: usize,
    /// Next comparison examines `(index - 1, index)`.
    pub index: usize,
    /// Whether the current pass has performed a swap so far.
    pub swapped: bool,
}

impl BubbleEngine {
    /// Resumption-state invariant, relative to the array contents `s`.
    /// When the current pass has not swapped, everything already examined
    /// this pass is in non-decreasing order.
    pub open spec fn wf(&self, s: Seq<u16>) -> bool {
        &&& s.len() <= MAX_LEN
        &&& 1 <= self.index
        &&& (self.index <= s.len() || self.index == 1)
        &&& (!self.swapped ==> forall|k: int|
            1 <= k < self.index && k < s.len() ==> #[trigger] s[k - 1] <= s[k])
    }

    pub fn new(a: &ArrayModel) -> (r: BubbleEngine)
        requires
            a.wf(),
        ensures
            r.wf(a@),
    {
        BubbleEngine { cycle: 0, index: 1, swapped: false }
    }

    /// Perform up to `speed` swaps.  A tick either exhausts its budget
    /// exactly (`Continue`) or reaches the terminal condition, in which
    /// case the array is sorted.  Swaps only reorder: the multiset of
    /// elements is preserved.  Every `Continue` tick strictly decreases
    /// the [`wsum`] potential, which never falls below zero, so the
    /// animation completes after a bounded number of ticks; an array of at
    /// most one element is `Done` on its very first tick with zero swaps.
    pub fn tick(&mut self, a: &mut ArrayModel, speed: u16) -> (r: TickResult)
        requires
            old(self).wf(old(a)@),
            old(a).wf(),
            speed >= 1,
        ensures
            final(a).wf(),
            final(self).wf(final(a)@),
            final(a)@.len() == old(a)@.len(),
            final(a)@.to_multiset() == old(a)@.to_multiset(),
            final(a).spec_mods() <= speed as nat,
            r == TickResult::Continue ==> final(a).spec_mods() == speed as nat,
            r == TickResult::Done ==> sorted(final(a)@),
            r == TickResult::Continue ==> wsum(final(a)@) < wsum(old(a)@),
            old(a)@.len() <= 1 ==> r == TickResult::Done && final(a).spec_mods() == 0,
    {
        a.reset_mods();
        loop
            invariant
                a.wf(),
                self.wf(a@),
                a@.len() == old(a)@.len(),
                a@.to_multiset() == old(a)@.to_multiset(),
                a.spec_mods() < speed as nat,
                speed >= 1,
                wsum(a@) + a.spec_mods() <= wsum(old(a)@),
                old(a)@.len() <= 1 ==> a.spec_mods() == 0,
            decreases
                speed as int - a.spec_mods(),
                (if self.swapped { 1int } else { 0int }),
                (if self.index <= a@.len() { a@.len() - self.index } else { 0int }),
        {
            let len: usize = a.len();
            if self.index >= len {
                if !self.swapped {
                    proof {
                        lemma_adjacent_implies_sorted(a@);
                    }
                    return TickResult::Done;
                }
                if self.cycle < usize::MAX {
                    self.cycle = self.cycle + 1;
                }
                self.index = 1;
                self.swapped = false;
            } else if a.compare(self.index - 1, self.index) {
                let ghost sp = a@;
                a.swap(self.index - 1, self.index);
                proof {
                    lemma_wsum_swap_adjacent(sp, self.index as int);
                }
                self.swapped = true;
                self.index = self.index + 1;
                if a.mods() == speed as usize {
                    return TickResult::Continue;
                }
            } else {
                self.index = self.index + 1;
            }
        }
    }
}

} // verus!
