//! Resumable bidirectional bubble sort (cocktail shaker).
//!
//! State is the pass counter and two cursors that move inward: the shrinking
//! window `[lo, hi)` still to be sorted, the sweep cursor `idx`, the sweep
//! direction, and an in-pass swap flag.  A pass sweeps forward from `lo`,
//! parking the window maximum at the top, then sweeps backward, parking the
//! window minimum at the bottom.  Terminal when the cursors meet (window of
//! at most one element) or a full pass performs no swap.

use vstd::prelude::*;
use crate::array::ArrayModel;
use crate::array::MAX_LEN;
use crate::sortspec::adjacent_pairs;
use crate::sortspec::lemma_adjacent_pairs_le;
use crate::sortspec::lemma_wsum_swap_adjacent;
use crate::sortspec::sorted;
use crate::sortspec::wsum;
use crate::TickResult;

verus! {

/// Every element below `lo` is in final position: no later element is
/// smaller.
pub open spec fn settled_prefix(s: Seq<u16>, lo: int) -> bool {
    forall|x: int, y: int| 0 <= x < lo && x < y < s.len() ==> s[x] <= s[y]
}

/// Every element at or above `hi` is in final position: no earlier element
/// is larger.
pub open spec fn settled_suffix(s: Seq<u16>, hi: int) -> bool {
    forall|x: int, y: int| hi <= y < s.len() && 0 <= x < y ==> s[x] <= s[y]
}

pub struct BiBubbleEngine {
    /// Completed-pass counter (saturating; informational only).
    pub cycle: usize,
    /// Low cursor: elements below it are settled.
    pub lo: usize,
    /// High cursor (exclusive): elements at or above it are settled.
    pub hi: usize,
    /// Sweep direction of the current half-pass.
    pub forward: bool,
    /// Sweep position: forward compares `(idx, idx + 1)`, backward compares
    /// `(idx - 1, idx)`.
    pub idx: usize,
    /// Whether the current pass has performed a swap so far.
    pub swapped: bool,
}

impl BiBubbleEngine {
    /// Resumption-state invariant, relative to the array contents `s`.
    pub open spec fn wf(&self, s: Seq<u16>) -> bool {
        &&& s.len() <= MAX_LEN
        &&& self.lo <= self.hi <= s.len()
        &&& settled_prefix(s, self.lo as int)
        &&& settled_suffix(s, self.hi as int)
        &&& (self.hi - self.lo >= 2 ==> {
            let lo = self.lo as int;
            let hi = self.hi as int;
            let idx = self.idx as int;
            &&& lo <= idx <= hi - 1
            &&& (self.forward ==> {
                &&& forall|k: int| lo <= k <= idx ==> #[trigger] s[k] <= s[idx]
                &&& (!self.swapped ==> adjacent_pairs(s, lo, idx))
            })
            &&& (!self.forward ==> {
                &&& hi < s.len()
                &&& forall|k: int| idx <= k < hi ==> #[trigger] s[k] >= s[idx]
                &&& (!self.swapped ==> adjacent_pairs(s, lo, hi))
            })
        })
    }

    pub fn new(a: &ArrayModel) -> (r: BiBubbleEngine)
        requires
            a.wf(),
        ensures
            r.wf(a@),
    {
        BiBubbleEngine {
            cycle: 0,
            lo: 0,
            hi: a.len(),
            forward: true,
            idx: 0,
            swapped: false,
        }
    }

    /// Perform up to `speed` swaps.  `Continue` means the budget was
    /// exhausted exactly; `Done` means the cursors met or a full pass made
    /// no swap, and the array is sorted.  The multiset of elements is
    /// preserved.  Every `Continue` tick strictly decreases the [`wsum`]
    /// potential, which never falls below zero, so the animation completes
    /// after a bounded number of ticks.  On an array of at most one
    /// element the cursors have already met, and the very first tick
    /// reports `Done` with zero swaps.
    #[verifier::rlimit(60)]
    pub fn tick(&mut self, a: &mut ArrayModel, speed: u16) -> (r: TickResult)
        requires
            old(self).wf(old(a)@),
            old(a).wf(),
            speed >= 1,
        ensures
            final(a).wf(),
            final(self).wf(final(a)@),
            final(a)@.len() == old(a)@.len(),
            final(a)@.to_multiset() == old(a)@.to_multiset(),
            final(a).spec_mods() <= speed as nat,
            r == TickResult::Continue ==> final(a).spec_mods() == speed as nat,
            r == TickResult::Done ==> sorted(final(a)@),
            r == TickResult::Continue ==> wsum(final(a)@) < wsum(old(a)@),
            old(self).hi - old(self).lo <= 1 ==> r == TickResult::Done && final(a).spec_mods()
                == 0,
    {
        a.reset_mods();
        loop
            invariant
                a.wf(),
                self.wf(a@),
                a@.len() == old(a)@.len(),
                a@.to_multiset() == old(a)@.to_multiset(),
                a.spec_mods() < speed as nat,
                speed >= 1,
                wsum(a@) + a.spec_mods() <= wsum(old(a)@),
                old(self).hi - old(self).lo <= 1 ==> self.hi - self.lo <= 1,
                old(self).hi - old(self).lo <= 1 ==> a.spec_mods() == 0,
            decreases
                speed as int - a.spec_mods(),
                self.hi - self.lo,
                (if self.forward {
                    self.hi - 1 - self.idx
                } else {
                    self.idx - self.lo
                }),
        {
            if self.hi - self.lo <= 1 {
                proof {
                    let s = a@;
                    let lo = self.lo as int;
                    let hi = self.hi as int;
                    assert forall|x: int, y: int| 0 <= x <= y < s.len() implies s[x] <= s[y] by {
                        if x < y {
                            if x < lo {
                            } else if y >= hi {
                            }
                        }
                    }
                }
                return TickResult::Done;
            }
            if self.forward {
                if self.idx + 1 >= self.hi {
                    // Forward sweep complete: the window maximum sits at
                    // `hi - 1`, which joins the settled suffix.
                    proof {
                        let s = a@;
                        let lo = self.lo as int;
                        let hi = self.hi as int;
                        assert forall|x: int, y: int|
                            hi - 1 <= y < s.len() && 0 <= x < y implies s[x] <= s[y] by {
                            if y == hi - 1 {
                                if x < lo {
                                    assert(s[x] <= s[y]);
                                }
                            }
                        }
                    }
                    self.hi = self.hi - 1;
                    self.forward = false;
                    self.idx = self.hi - 1;
                } else if a.compare(self.idx, self.idx + 1) {
                    let ghost s = a@;
                    let ghost i0 = self.idx as int;
                    a.swap(self.idx, self.idx + 1);
                    self.idx = self.idx + 1;
                    self.swapped = true;
                    proof {
                        lemma_wsum_swap_adjacent(s, i0 + 1);
                        let s2 = a@;
                        assert(forall|k: int|
                            self.lo <= k <= i0 + 1 ==> #[trigger] s2[k] <= s2[i0 + 1]);
                        assert forall|x: int, y: int|
                            0 <= x < self.lo && x < y < s2.len() implies s2[x] <= s2[y] by {
                            assert(s[x] <= s[i0] && s[x] <= s[i0 + 1]);
                        }
                        assert forall|x: int, y: int|
                            self.hi <= y < s2.len() && 0 <= x < y implies s2[x] <= s2[y] by {
                            assert(s[i0] <= s[y] && s[i0 + 1] <= s[y]);
                        }
                    }
                    if a.mods() == speed as usize {
                        return TickResult::Continue;
                    }
                } else {
                    self.idx = self.idx + 1;
                }
            } else {
                if self.idx <= self.lo {
                    // Backward sweep complete.  If the whole pass made no
                    // swap the array is sorted; otherwise the window
                    // minimum sits at `lo`, which joins the settled prefix.
                    if !self.swapped {
                        proof {
                            let s = a@;
                            let lo = self.lo as int;
                            let hi = self.hi as int;
                            assert forall|x: int, y: int|
                                0 <= x <= y < s.len() implies s[x] <= s[y] by {
                                if x < y {
                                    if x < lo {
                                    } else if y >= hi && x >= hi {
                                    } else if y >= hi {
                                        assert(s[x] <= s[y]);
                                    } else {
                                        lemma_adjacent_pairs_le(s, lo, hi, x, y);
                                    }
                                }
                            }
                        }
                        return TickResult::Done;
                    }
                    proof {
                        let s = a@;
                        let lo = self.lo as int;
                        let hi = self.hi as int;
                        assert forall|x: int, y: int|
                            0 <= x < lo + 1 && x < y < s.len() implies s[x] <= s[y] by {
                            if x == lo {
                                if y >= hi {
                                    assert(s[x] <= s[y]);
                                }
                            }
                        }
                    }
                    self.lo = self.lo + 1;
                    self.swapped = false;
                    self.forward = true;
                    self.idx = self.lo;
                    if self.cycle < usize::MAX {
                        self.cycle = self.cycle + 1;
                    }
                } else if a.compare(self.idx - 1, self.idx) {
                    let ghost s = a@;
                    let ghost i0 = self.idx as int;
                    a.swap(self.idx - 1, self.idx);
                    self.idx = self.idx - 1;
                    self.swapped = true;
                    proof {
                        lemma_wsum_swap_adjacent(s, i0);
                        let s2 = a@;
                        assert forall|k: int|
                            i0 - 1 <= k < self.hi implies #[trigger] s2[k] >= s2[i0 - 1] by {
                            if k > i0 {
                                assert(s[k] >= s[i0]);
                            }
                        }
                        assert forall|x: int, y: int|
                            0 <= x < self.lo && x < y < s2.len() implies s2[x] <= s2[y] by {
                            assert(s[x] <= s[i0] && s[x] <= s[i0 - 1]);
                        }
                        assert forall|x: int, y: int|
                            self.hi <= y < s2.len() && 0 <= x < y implies s2[x] <= s2[y] by {
                            assert(s[i0] <= s[y] && s[i0 - 1] <= s[y]);
                        }
                    }
                    if a.mods() == speed as usize {
                        return TickResult::Continue;
                    }
                } else {
                    proof {
                        let s = a@;
                        let i0 = self.idx as int;
                        assert forall|k: int|
                            i0 - 1 <= k < self.hi implies #[trigger] s[k] >= s[i0 - 1] by {
                            if k >= i0 {
                                assert(s[k] >= s[i0]);
                            }
                        }
                    }
                    self.idx = self.idx - 1;
                }
            }
        }
    }
}

} // verus!
