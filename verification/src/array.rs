//! The array model: the mutable sequence of values that the step engines
//! reorder, together with the mutation counter that meters each tick.

use vstd::prelude::*;
use vstd::pervasive::VecAdditionalExecFns;
use rand::seq::SliceRandom;

verus! {

/// Largest supported element count.  The values are 16-bit magnitudes and
/// the initial contents are the permutation `1..=len`, so the length must
/// fit in `u16` for every element to be representable.
pub const MAX_LEN: usize = 0xFFFF;

/// Swapping `i` and `j` leaves the multiset of elements unchanged.
pub proof fn lemma_swap_preserves_multiset(s: Seq<u16>, i: int, j: int)
    requires
        0 <= i < s.len(),
        0 <= j < s.len(),
    ensures
        s.update(i, s[j]).update(j, s[i]).to_multiset() == s.to_multiset(),
{
    broadcast use vstd::seq_lib::group_to_multiset_ensures;
    broadcast use vstd::seq_lib::to_multiset_update;
    broadcast use vstd::multiset::group_multiset_axioms;

    let s1 = s.update(i, s[j]);
    assert(s1[j] == s[j]);
    assert(s.contains(s[i]));
    assert(s.to_multiset().count(s[i]) > 0);
    assert(s1.update(j, s[i]).to_multiset() =~= s.to_multiset());
}

/// Reversal is an involution: reversing twice restores the original
/// order, whatever order (for instance a shuffled one) that was.
pub proof fn lemma_reverse_involution(s: Seq<u16>)
    ensures
        s.reverse().reverse() == s,
{
    assert(s.reverse().reverse() =~= s);
}

/// The ordered sequence of values under animation.  Algorithms mutate it
/// only through the counted primitives below; the counter meters how many
/// counted mutations have happened since it was last reset, which is what
/// bounds the work done within one animation tick.
pub struct ArrayModel {
    values: Vec<u16>,
    mods: usize,
}

impl View for ArrayModel {
    type V = Seq<u16>;

    closed spec fn view(&self) -> Seq<u16> {
        self.values@
    }
}

impl ArrayModel {
    /// The length never exceeds [`MAX_LEN`].
    pub open spec fn wf(&self) -> bool {
        self@.len() <= MAX_LEN
    }

    /// Counted mutations since the last [`Self::reset_mods`].
    pub closed spec fn spec_mods(&self) -> nat {
        self.mods as nat
    }

    /// A model of `len` elements holding the sorted permutation `1..=len`.
    pub fn new(len: u16) -> (r: ArrayModel)
        ensures
            r.wf(),
            r@ == Seq::new(len as nat, |i: int| (i + 1) as u16),
            r.spec_mods() == 0,
    {
        let mut values: Vec<u16> = Vec::new();
        let mut i: u16 = 0;
        while i < len
            invariant
                i <= len,
                values@ == Seq::new(i as nat, |k: int| (k + 1) as u16),
            decreases len - i,
        {
            values.push(i + 1);
            i = i + 1;
            assert(values@ =~= Seq::new(i as nat, |k: int| (k + 1) as u16));
        }
        ArrayModel { values, mods: 0 }
    }

    pub fn len(&self) -> (r: usize)
        ensures
            r == self@.len(),
    {
        self.values.len()
    }

    /// The value at index `i`.
    pub fn read(&self, i: usize) -> (r: u16)
        requires
            i < self@.len(),
        ensures
            r == self@[i as int],
    {
        self.values[i]
    }

    /// Comparison primitive: whether the element at `i` is strictly greater
    /// than the element at `j`.  Comparisons do not mutate and are not
    /// counted.
    pub fn compare(&self, i: usize, j: usize) -> (r: bool)
        requires
            i < self@.len(),
            j < self@.len(),
        ensures
            r == (self@[i as int] > self@[j as int]),
    {
        self.values[i] > self.values[j]
    }

    /// Exchange the elements at `i` and `j` and count one mutation.
    pub fn swap(&mut self, i: usize, j: usize)
        requires
            i < old(self)@.len(),
            j < old(self)@.len(),
            old(self).spec_mods() < MAX_LEN,
        ensures
            final(self)@ == old(self)@.update(i as int, old(self)@[j as int]).update(
                j as int,
                old(self)@[i as int],
            ),
            final(self)@.len() == old(self)@.len(),
            final(self)@.to_multiset() == old(self)@.to_multiset(),
            final(self).spec_mods() == old(self).spec_mods() + 1,
    {
        let vi: u16 = self.values[i];
        let vj: u16 = self.values[j];
        self.values.set(i, vj);
        self.values.set(j, vi);
        self.mods = self.mods + 1;
        proof {
            lemma_swap_preserves_multiset(old(self)@, i as int, j as int);
        }
    }

    /// Overwrite the element at `i` and count one mutation.  This is the
    /// copy-back step of the merge engine; unlike [`Self::swap`] it does not
    /// by itself preserve the multiset of elements.
    pub fn write(&mut self, i: usize, v: u16)
        requires
            i < old(self)@.len(),
            old(self).spec_mods() < MAX_LEN,
        ensures
            final(self)@ == old(self)@.update(i as int, v),
            final(self)@.len() == old(self)@.len(),
            final(self).spec_mods() == old(self).spec_mods() + 1,
    {
        self.values.set(i, v);
        self.mods = self.mods + 1;
    }

    pub fn mods(&self) -> (r: usize)
        ensures
            r == self.spec_mods(),
    {
        self.mods
    }

    /// Start a fresh tick budget.
    pub fn reset_mods(&mut self)
        ensures
            final(self)@ == old(self)@,
            final(self).spec_mods() == 0,
    {
        self.mods = 0;
    }

    /// Bulk replacement of the contents.  The length is fixed at
    /// construction, so the replacement must have the same length.
    pub fn reset(&mut self, values: Vec<u16>)
        requires
            values@.len() == old(self)@.len(),
        ensures
            final(self)@ == values@,
            final(self).spec_mods() == old(self).spec_mods(),
    {
        self.values = values;
    }

    /// A copy of the current contents, for rendering snapshots.
    pub fn snapshot(&self) -> (r: Vec<u16>)
        ensures
            r@ == self@,
    {
        let mut out: Vec<u16> = Vec::new();
        let mut i: usize = 0;
        while i < self.values.len()
            invariant
                i <= self@.len(),
                out@ == self@.take(i as int),
            decreases self@.len() - i,
        {
            out.push(self.values[i]);
            i = i + 1;
            assert(out@ =~= self@.take(i as int));
        }
        assert(self@.take(self@.len() as int) =~= self@);
        out
    }

    /// Relies on rand's `SliceRandom::shuffle`: an in-place Fisher-Yates
    /// rearrangement of the slice elements, driven by the thread-local
    /// generator.  No order can be promised of the outcome, only that the
    /// elements themselves are kept.
    #[verifier::external_body]
    pub fn shuffle(&mut self)
        ensures
            final(self)@.to_multiset() == old(self)@.to_multiset(),
            final(self)@.len() == old(self)@.len(),
            final(self).spec_mods() == old(self).spec_mods(),
    {
        self.values.as_mut_slice().shuffle(&mut rand::rng());
    }

    /// Reverse the order of the elements.  Not counted: reversal is a bulk
    /// operation outside any animation tick.
    pub fn reverse(&mut self)
        ensures
            final(self)@ == old(self)@.reverse(),
            final(self).spec_mods() == old(self).spec_mods(),
    {
        let ghost s0 = self@;
        let ghost m0 = self.spec_mods();
        let n: usize = self.values.len();
        let mut i: usize = 0;
        while i < n / 2
            invariant
                n == self@.len(),
                i <= n / 2,
                self@.len() == s0.len(),
                self.spec_mods() == m0,
                forall|k: int| 0 <= k < i || n - i <= k < n ==> self@[k] == s0[n - 1 - k],
                forall|k: int| i <= k < n - i ==> self@[k] == s0[k],
            decreases n / 2 - i,
        {
            let vi: u16 = self.values[i];
            let vj: u16 = self.values[n - 1 - i];
            self.values.set(i, vj);
            self.values.set(n - 1 - i, vi);
            i = i + 1;
        }
        assert(self@ =~= s0.reverse());
    }
}

} // verus!
