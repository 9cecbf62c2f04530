//! Resumable bottom-up merge sort with iterative doubling of the run size.
//!
//! For run size `b` the array splits into contiguous chunks of size `b`;
//! the two halves of each chunk are merged, stably and favouring the left
//! half on ties, into a temporary buffer, and the buffer is copied back one
//! element at a time — each copy-back write is a counted elementary
//! operation, so a tick can pause in the middle of a chunk.  The run size
//! doubles after each full pass; terminal once a full pass has run with a
//! size exceeding the array length.

use vstd::prelude::*;
use vstd::multiset::Multiset;
use crate::array::ArrayModel;
use crate::array::MAX_LEN;
use crate::sortspec::sorted;
use crate::TickResult;

verus! {

/// Stable two-pointer merge of two runs, favouring the left run on ties.
pub open spec fn merge_spec(l: Seq<u16>, r: Seq<u16>) -> Seq<u16>
    decreases l.len(), r.len(),
{
    if l.len() == 0 {
        r
    } else if r.len() == 0 {
        l
    } else if l[0] <= r[0] {
        seq![l[0]] + merge_spec(l.drop_first(), r)
    } else {
        seq![r[0]] + merge_spec(l, r.drop_first())
    }
}

/// Merging only rearranges: the result holds exactly the elements of the
/// two runs.
pub proof fn lemma_merge_spec_multiset(l: Seq<u16>, r: Seq<u16>)
    ensures
        merge_spec(l, r).to_multiset() == (l + r).to_multiset(),
    decreases l.len(), r.len(),
{
    broadcast use vstd::multiset::group_multiset_axioms;

    if l.len() == 0 {
        assert(l + r =~= r);
    } else if r.len() == 0 {
        assert(l + r =~= l);
    } else if l[0] <= r[0] {
        lemma_merge_spec_multiset(l.drop_first(), r);
        vstd::seq_lib::lemma_multiset_commutative(seq![l[0]], merge_spec(l.drop_first(), r));
        vstd::seq_lib::lemma_multiset_commutative(seq![l[0]], l.drop_first() + r);
        assert(seq![l[0]] + (l.drop_first() + r) =~= l + r);
    } else {
        lemma_merge_spec_multiset(l, r.drop_first());
        vstd::seq_lib::lemma_multiset_commutative(seq![r[0]], merge_spec(l, r.drop_first()));
        vstd::seq_lib::lemma_multiset_commutative(seq![r[0]], l + r.drop_first());
        vstd::seq_lib::lemma_multiset_commutative(l, r.drop_first());
        vstd::seq_lib::lemma_multiset_commutative(l, r);
        assert(r =~= seq![r[0]] + r.drop_first());
        vstd::seq_lib::lemma_multiset_commutative(seq![r[0]], r.drop_first());
    }
}

/// The smaller of two values.
pub open spec fn min_int(a: int, b: int) -> int {
    if a <= b {
        a
    } else {
        b
    }
}

/// The region `[lo, hi)` of `s` is in non-decreasing order.
pub open spec fn sorted_range(s: Seq<u16>, lo: int, hi: int) -> bool {
    forall|i: int, j: int| #![trigger s[i], s[j]] 0 <= i && lo <= i <= j < hi ==> s[i] <= s[j]
}

/// The stable merge of two sorted runs is sorted.
pub proof fn lemma_merge_spec_sorted(l: Seq<u16>, r: Seq<u16>)
    requires
        sorted(l),
        sorted(r),
    ensures
        sorted(merge_spec(l, r)),
        merge_spec(l, r).len() == l.len() + r.len(),
    decreases l.len(), r.len(),
{
    if l.len() == 0 || r.len() == 0 {
    } else if l[0] <= r[0] {
        let m = merge_spec(l.drop_first(), r);
        assert(sorted(l.drop_first()));
        lemma_merge_spec_sorted(l.drop_first(), r);
        assert(m.len() > 0 ==> m[0] >= l[0]) by {
            if m.len() > 0 {
                if l.drop_first().len() == 0 {
                } else if l.drop_first()[0] <= r[0] {
                    assert(m[0] == l.drop_first()[0]);
                    assert(l.drop_first()[0] == l[1]);
                } else {
                    assert(m[0] == r[0]);
                }
            }
        }
        let whole = seq![l[0]] + m;
        assert forall|i: int, j: int|
            0 <= i <= j < whole.len() implies whole[i] <= whole[j] by {
            if i == 0 && j > 0 {
                assert(whole[j] == m[j - 1]);
                assert(m[0] <= m[j - 1]);
            } else if i > 0 {
                assert(whole[i] == m[i - 1] && whole[j] == m[j - 1]);
            }
        }
    } else {
        let m = merge_spec(l, r.drop_first());
        assert(sorted(r.drop_first()));
        lemma_merge_spec_sorted(l, r.drop_first());
        assert(m.len() > 0 ==> m[0] >= r[0]) by {
            if m.len() > 0 {
                if r.drop_first().len() == 0 {
                } else if l[0] <= r.drop_first()[0] {
                    assert(m[0] == l[0]);
                } else {
                    assert(m[0] == r.drop_first()[0]);
                    assert(r.drop_first()[0] == r[1]);
                }
            }
        }
        let whole = seq![r[0]] + m;
        assert forall|i: int, j: int|
            0 <= i <= j < whole.len() implies whole[i] <= whole[j] by {
            if i == 0 && j > 0 {
                assert(whole[j] == m[j - 1]);
                assert(m[0] <= m[j - 1]);
            } else if i > 0 {
                assert(whole[i] == m[i - 1] && whole[j] == m[j - 1]);
            }
        }
    }
}

/// Order facts transfer between sequences that agree on a region.
proof fn lemma_sorted_range_transfer(v1: Seq<u16>, v2: Seq<u16>, lo: int, hi: int)
    requires
        0 <= lo,
        hi <= v1.len(),
        hi <= v2.len(),
        forall|i: int| lo <= i < hi ==> v1[i] == v2[i],
        sorted_range(v1, lo, hi),
    ensures
        sorted_range(v2, lo, hi),
{
    assert forall|i: int, j: int| lo <= i <= j < hi implies v2[i] <= v2[j] by {
        assert(v1[i] <= v1[j]);
    }
}

/// A sorted run embedded at `at` makes that region of the host sorted.
proof fn lemma_sorted_range_of_embedded(v: Seq<u16>, t: Seq<u16>, at: int)
    requires
        0 <= at,
        at + t.len() <= v.len(),
        forall|m: int| 0 <= m < t.len() ==> v[at + m] == t[m],
        sorted(t),
    ensures
        sorted_range(v, at, at + t.len()),
{
    assert forall|i: int, j: int| at <= i <= j < at + t.len() implies v[i] <= v[j] by {
        assert(v[i] == t[i - at] && v[j] == t[j - at]);
        assert(t[i - at] <= t[j - at]);
    }
}

/// A sorted region gives a sorted subrange.
proof fn lemma_sub_of_sorted_range(s: Seq<u16>, lo: int, hi: int)
    requires
        0 <= lo <= hi <= s.len(),
        sorted_range(s, lo, hi),
    ensures
        sorted(s.subrange(lo, hi)),
{
    assert forall|i: int, j: int|
        0 <= i <= j < s.subrange(lo, hi).len() implies s.subrange(lo, hi)[i] <= s.subrange(
        lo,
        hi,
    )[j] by {
        assert(s[lo + i] <= s[lo + j]);
    }
}

/// Merging the two halves of an already-sorted whole is the identity: the
/// stable merge of `l` and `r` is `l + r` itself whenever `l + r` is
/// sorted.  This is why a full merge-sort pass over a sorted array causes
/// no net reordering.
pub proof fn lemma_merge_sorted_identity(l: Seq<u16>, r: Seq<u16>)
    requires
        sorted(l + r),
    ensures
        merge_spec(l, r) == l + r,
    decreases l.len(), r.len(),
{
    if l.len() == 0 {
        assert(merge_spec(l, r) =~= l + r);
    } else if r.len() == 0 {
        assert(merge_spec(l, r) =~= l + r);
    } else {
        assert(l[0] == (l + r)[0]);
        assert(r[0] == (l + r)[l.len() as int]);
        assert(l[0] <= r[0]);
        assert(l.drop_first() + r =~= (l + r).drop_first());
        assert forall|i: int, j: int|
            0 <= i <= j < (l.drop_first() + r).len() implies (l.drop_first() + r)[i] <= (
        l.drop_first() + r)[j] by {
            assert((l + r)[i + 1] <= (l + r)[j + 1]);
        }
        lemma_merge_sorted_identity(l.drop_first(), r);
        assert(seq![l[0]] + (l.drop_first() + r) =~= l + r);
    }
}

/// The array as it will stand once the pending copy-back completes: the
/// part already written, the not-yet-copied tail of the buffer, and the
/// untouched remainder.
pub open spec fn virt(s: Seq<u16>, chunk: int, temp: Seq<u16>, pos: int) -> Seq<u16> {
    s.take(chunk + pos) + temp.skip(pos) + s.skip(chunk + temp.len())
}

/// Copying the next buffer element back into the array leaves the
/// completed-copy view unchanged.
proof fn lemma_virt_write(s: Seq<u16>, chunk: int, temp: Seq<u16>, pos: int)
    requires
        0 <= chunk,
        0 <= pos < temp.len(),
        chunk + temp.len() <= s.len(),
    ensures
        virt(s.update(chunk + pos, temp[pos]), chunk, temp, pos + 1) == virt(s, chunk, temp, pos),
{
    let s2 = s.update(chunk + pos, temp[pos]);
    assert(virt(s2, chunk, temp, pos + 1) =~= virt(s, chunk, temp, pos));
}

/// A fully copied chunk makes the completed-copy view the array itself.
proof fn lemma_virt_done(s: Seq<u16>, chunk: int, temp: Seq<u16>)
    requires
        0 <= chunk,
        chunk + temp.len() <= s.len(),
    ensures
        virt(s, chunk, temp, temp.len() as int) == s,
{
    assert(temp.skip(temp.len() as int) =~= Seq::<u16>::empty());
    assert(virt(s, chunk, temp, temp.len() as int) =~= s);
}

/// A freshly merged chunk buffer keeps the completed-copy view a
/// permutation of the array.
proof fn lemma_loaded_virt(s: Seq<u16>, chunk: int, mid: int, end: int, temp: Seq<u16>)
    requires
        0 <= chunk <= mid <= end <= s.len(),
        temp == merge_spec(s.subrange(chunk, mid), s.subrange(mid, end)),
        temp.len() == end - chunk,
    ensures
        virt(s, chunk, temp, 0).to_multiset() == s.to_multiset(),
{
    broadcast use vstd::multiset::group_multiset_axioms;

    lemma_merge_spec_multiset(s.subrange(chunk, mid), s.subrange(mid, end));
    assert(s.subrange(chunk, mid) + s.subrange(mid, end) =~= s.subrange(chunk, end));
    assert(virt(s, chunk, temp, 0) =~= (s.take(chunk) + temp) + s.skip(end));
    vstd::seq_lib::lemma_multiset_commutative(s.take(chunk) + temp, s.skip(end));
    vstd::seq_lib::lemma_multiset_commutative(s.take(chunk), temp);
    vstd::seq_lib::lemma_multiset_commutative(s.take(chunk), s.subrange(chunk, end));
    assert(s.take(chunk) + s.subrange(chunk, end) =~= s.take(end));
    vstd::seq_lib::lemma_multiset_commutative(s.take(end), s.skip(end));
    assert(s.take(end) + s.skip(end) =~= s);
    assert(virt(s, chunk, temp, 0).to_multiset() =~= s.to_multiset());
}

/// Merge the runs `[start, mid)` and `[mid, end)` of the array into a fresh
/// buffer.
fn merge_runs(a: &ArrayModel, start: usize, mid: usize, end: usize) -> (out: Vec<u16>)
    requires
        start <= mid <= end <= a@.len(),
    ensures
        out@ == merge_spec(
            a@.subrange(start as int, mid as int),
            a@.subrange(mid as int, end as int),
        ),
        out@.len() == end - start,
{
    let ghost lrun = a@.subrange(start as int, mid as int);
    let ghost rrun = a@.subrange(mid as int, end as int);
    let mut out: Vec<u16> = Vec::new();
    let mut li: usize = start;
    let mut ri: usize = mid;
    proof {
        assert(lrun.skip(0) =~= lrun);
        assert(rrun.skip(0) =~= rrun);
    }
    while li < mid && ri < end
        invariant
            start <= li <= mid <= ri <= end <= a@.len(),
            lrun == a@.subrange(start as int, mid as int),
            rrun == a@.subrange(mid as int, end as int),
            out@ + merge_spec(lrun.skip(li - start), rrun.skip(ri - mid)) == merge_spec(
                lrun,
                rrun,
            ),
            out@.len() == (li - start) + (ri - mid),
        decreases (mid - li) + (end - ri),
    {
        let ghost lrest = lrun.skip(li - start);
        let ghost rrest = rrun.skip(ri - mid);
        proof {
            assert(lrest[0] == a@[li as int]);
            assert(rrest[0] == a@[ri as int]);
            assert(lrest.drop_first() =~= lrun.skip(li - start + 1));
            assert(rrest.drop_first() =~= rrun.skip(ri - mid + 1));
        }
        if !a.compare(li, ri) {
            // a[li] <= a[ri]: the left run goes first (ties favour it).
            out.push(a.read(li));
            li = li + 1;
            proof {
                assert(out@ + merge_spec(lrun.skip(li - start), rrun.skip(ri - mid)) =~= (
                out@.drop_last() + (seq![lrest[0]] + merge_spec(
                    lrest.drop_first(),
                    rrest,
                ))));
            }
        } else {
            out.push(a.read(ri));
            ri = ri + 1;
            proof {
                assert(out@ + merge_spec(lrun.skip(li - start), rrun.skip(ri - mid)) =~= (
                out@.drop_last() + (seq![rrest[0]] + merge_spec(
                    lrest,
                    rrest.drop_first(),
                ))));
            }
        }
    }
    while li < mid
        invariant
            start <= li <= mid <= ri <= end <= a@.len(),
            li < mid ==> ri == end,
            lrun == a@.subrange(start as int, mid as int),
            rrun == a@.subrange(mid as int, end as int),
            out@ + merge_spec(lrun.skip(li - start), rrun.skip(ri - mid)) == merge_spec(
                lrun,
                rrun,
            ),
            out@.len() == (li - start) + (ri - mid),
        decreases mid - li,
    {
        let ghost lrest = lrun.skip(li - start);
        proof {
            assert(rrun.skip(ri - mid) =~= Seq::<u16>::empty());
            assert(lrest[0] == a@[li as int]);
            assert(lrest.drop_first() =~= lrun.skip(li - start + 1));
            assert(merge_spec(lrest, Seq::<u16>::empty()) == lrest);
            assert(merge_spec(lrest.drop_first(), Seq::<u16>::empty()) == lrest.drop_first());
        }
        out.push(a.read(li));
        li = li + 1;
        proof {
            assert(out@ + lrun.skip(li - start) =~= out@.drop_last() + lrest);
        }
    }
    while ri < end
        invariant
            start <= li <= mid <= ri <= end <= a@.len(),
            li == mid,
            lrun == a@.subrange(start as int, mid as int),
            rrun == a@.subrange(mid as int, end as int),
            out@ + merge_spec(lrun.skip(li - start), rrun.skip(ri - mid)) == merge_spec(
                lrun,
                rrun,
            ),
            out@.len() == (li - start) + (ri - mid),
        decreases end - ri,
    {
        let ghost rrest = rrun.skip(ri - mid);
        proof {
            assert(lrun.skip(li - start) =~= Seq::<u16>::empty());
            assert(rrest[0] == a@[ri as int]);
            assert(rrest.drop_first() =~= rrun.skip(ri - mid + 1));
            assert(merge_spec(Seq::<u16>::empty(), rrest) == rrest);
            assert(merge_spec(Seq::<u16>::empty(), rrest.drop_first()) == rrest.drop_first());
        }
        out.push(a.read(ri));
        ri = ri + 1;
        proof {
            assert(out@ + rrun.skip(ri - mid) =~= out@.drop_last() + rrest);
        }
    }
    proof {
        assert(lrun.skip(mid - start) =~= Seq::<u16>::empty());
        assert(rrun.skip(end - mid) =~= Seq::<u16>::empty());
        assert(merge_spec(Seq::<u16>::empty(), Seq::<u16>::empty()) =~= Seq::<u16>::empty());
        assert(out@ =~= out@ + Seq::<u16>::empty());
    }
    out
}

/// Loading the next chunk of the current pass keeps every finished chunk
/// of this pass sorted and every half-chunk still ahead sorted.
proof fn lemma_advance_blocks(s: Seq<u16>, bb: int, bi: int, t: Seq<u16>)
    requires
        bb >= 2,
        bb % 2 == 0,
        bi >= 0,
        (bi + 1) * bb < s.len(),
        t.len() == min_int(bb, s.len() - (bi + 1) * bb),
        t == merge_spec(
            s.subrange((bi + 1) * bb, min_int((bi + 1) * bb + bb / 2, s.len() as int)),
            s.subrange(
                min_int((bi + 1) * bb + bb / 2, s.len() as int),
                min_int((bi + 1) * bb + bb, s.len() as int),
            ),
        ),
        forall|k: int|
            0 <= k <= bi ==> #[trigger] sorted_range(s, k * bb, min_int(k * bb + bb, s.len() as int)),
        forall|k: int|
            k >= 0 && (bi + 1) * bb <= k * (bb / 2) ==> #[trigger] sorted_range(
                s,
                k * (bb / 2),
                min_int(k * (bb / 2) + (bb / 2), s.len() as int),
            ),
    ensures
        forall|k: int|
            0 <= k <= bi + 1 ==> #[trigger] sorted_range(
                virt(s, (bi + 1) * bb, t, 0),
                k * bb,
                min_int(k * bb + bb, s.len() as int),
            ),
        forall|k: int|
            k >= 0 && (bi + 1) * bb + t.len() <= k * (bb / 2) ==> #[trigger] sorted_range(
                virt(s, (bi + 1) * bb, t, 0),
                k * (bb / 2),
                min_int(k * (bb / 2) + (bb / 2), s.len() as int),
            ),
{
    let n = s.len() as int;
    let half = bb / 2;
    let c2 = (bi + 1) * bb;
    let v2 = virt(s, c2, t, 0);
    let mid = min_int(c2 + half, n);
    let end = min_int(c2 + bb, n);
    let kl = 2 * (bi + 1);
    assert(kl * half == c2 && (kl + 1) * half == c2 + half) by (nonlinear_arith)
        requires
            bb == 2 * half,
            c2 == (bi + 1) * bb,
            kl == 2 * (bi + 1),
    ;
    assert(sorted_range(s, kl * half, min_int(kl * half + half, n)));
    assert(min_int(kl * half + half, n) == mid);
    lemma_sub_of_sorted_range(s, c2, mid);
    if c2 + half < n {
        assert(sorted_range(s, (kl + 1) * half, min_int((kl + 1) * half + half, n)));
        assert(min_int((kl + 1) * half + half, n) == end);
        lemma_sub_of_sorted_range(s, mid, end);
    } else {
        assert(mid == n && end == n);
        assert(sorted(s.subrange(mid, end)));
    }
    lemma_merge_spec_sorted(s.subrange(c2, mid), s.subrange(mid, end));
    assert(t.len() == end - c2);
    assert(forall|i: int| 0 <= i < c2 ==> v2[i] == s[i]);
    assert(forall|m: int| 0 <= m < t.len() ==> v2[c2 + m] == t[m]);
    assert(forall|i: int| c2 + t.len() <= i < n ==> v2[i] == s[i]);
    lemma_sorted_range_of_embedded(v2, t, c2);
    assert forall|k: int|
        0 <= k <= bi + 1 implies #[trigger] sorted_range(v2, k * bb, min_int(k * bb + bb, n)) by {
        if k <= bi {
            assert(k * bb >= 0 && k * bb + bb <= c2) by (nonlinear_arith)
                requires
                    0 <= k <= bi,
                    bb >= 2,
                    c2 == (bi + 1) * bb,
            ;
            assert(sorted_range(s, k * bb, min_int(k * bb + bb, n)));
            lemma_sorted_range_transfer(s, v2, k * bb, min_int(k * bb + bb, n));
        } else {
            assert(k * bb == c2) by (nonlinear_arith)
                requires
                    k == bi + 1,
                    c2 == (bi + 1) * bb,
            ;
            assert(min_int(k * bb + bb, n) == c2 + t.len());
            assert(sorted_range(v2, c2, c2 + t.len()));
        }
    }
    assert forall|k: int|
        k >= 0 && c2 + t.len() <= k * half implies #[trigger] sorted_range(
        v2,
        k * half,
        min_int(k * half + half, n),
    ) by {
        assert(c2 <= k * half);
        assert(sorted_range(s, k * half, min_int(k * half + half, n)));
        assert(k * half >= 0) by (nonlinear_arith)
            requires
                k >= 0,
                half >= 1,
        ;
        lemma_sorted_range_transfer(s, v2, k * half, min_int(k * half + half, n));
    }
}

/// Finishing a pass and doubling the run size keeps the first chunk of the
/// new pass sorted and turns last pass's chunks into this pass's sorted
/// half-chunks.
proof fn lemma_pass_blocks(s: Seq<u16>, bb: int, bi: int, t: Seq<u16>)
    requires
        bb >= 2,
        bb % 2 == 0,
        bi >= 0,
        s.len() >= 1,
        s.len() <= (bi + 1) * bb,
        t.len() == min_int(2 * bb, s.len() as int),
        t == merge_spec(
            s.subrange(0, min_int(bb, s.len() as int)),
            s.subrange(min_int(bb, s.len() as int), min_int(2 * bb, s.len() as int)),
        ),
        forall|k: int|
            0 <= k <= bi ==> #[trigger] sorted_range(s, k * bb, min_int(k * bb + bb, s.len() as int)),
    ensures
        forall|k: int|
            0 <= k <= 0 ==> #[trigger] sorted_range(
                virt(s, 0, t, 0),
                k * (2 * bb),
                min_int(k * (2 * bb) + 2 * bb, s.len() as int),
            ),
        forall|k: int|
            k >= 0 && t.len() <= k * bb ==> #[trigger] sorted_range(
                virt(s, 0, t, 0),
                k * bb,
                min_int(k * bb + bb, s.len() as int),
            ),
{
    let n = s.len() as int;
    let v2 = virt(s, 0, t, 0);
    let mid = min_int(bb, n);
    let end = min_int(2 * bb, n);
    assert(0 * bb == 0 && 1 * bb == bb) by (nonlinear_arith);
    assert(sorted_range(s, 0 * bb, min_int(0 * bb + bb, n)));
    lemma_sub_of_sorted_range(s, 0, mid);
    if bb < n {
        assert(1 <= bi) by (nonlinear_arith)
            requires
                bb < n,
                n <= (bi + 1) * bb,
                bb >= 2,
                bi >= 0,
        ;
        assert(sorted_range(s, 1 * bb, min_int(1 * bb + bb, n)));
        lemma_sub_of_sorted_range(s, mid, end);
    } else {
        assert(mid == n && end == n);
        assert(sorted(s.subrange(mid, end)));
    }
    lemma_merge_spec_sorted(s.subrange(0, mid), s.subrange(mid, end));
    assert(t.len() == end);
    assert(forall|m: int| 0 <= m < t.len() ==> v2[m] == t[m]);
    assert(forall|i: int| t.len() <= i < n ==> v2[i] == s[i]);
    lemma_sorted_range_of_embedded(v2, t, 0);
    assert forall|k: int|
        0 <= k <= 0 implies #[trigger] sorted_range(
        v2,
        k * (2 * bb),
        min_int(k * (2 * bb) + 2 * bb, n),
    ) by {
        assert(k * (2 * bb) == 0) by (nonlinear_arith)
            requires
                k == 0,
        ;
        assert(min_int(k * (2 * bb) + 2 * bb, n) == t.len());
        assert(sorted_range(v2, 0, t.len() as int));
    }
    assert forall|k: int|
        k >= 0 && t.len() <= k * bb implies #[trigger] sorted_range(
        v2,
        k * bb,
        min_int(k * bb + bb, n),
    ) by {
        if k * bb < n {
            assert(k <= bi) by (nonlinear_arith)
                requires
                    k * bb < n,
                    n <= (bi + 1) * bb,
                    bb >= 1,
            ;
            assert(sorted_range(s, k * bb, min_int(k * bb + bb, n)));
            lemma_sorted_range_transfer(s, v2, k * bb, min_int(k * bb + bb, n));
        }
    }
}

/// Number of passes the engine will still start after finishing the pass
/// with run size `b`: one per doubling until the size exceeds the length.
pub open spec fn passes_after(b: int, len: int) -> int
    decreases (if b <= len { len + 1 - b } else { 0int }),
{
    if b < 1 || b > len {
        0
    } else {
        1 + passes_after(2 * b, len)
    }
}

pub proof fn lemma_passes_after_nonneg(b: int, len: int)
    ensures
        passes_after(b, len) >= 0,
    decreases (if b <= len { len + 1 - b } else { 0int }),
{
    if 1 <= b <= len {
        lemma_passes_after_nonneg(2 * b, len)
    }
}

pub struct MergeEngine {
    /// Current run size; chunks of this size are merged half against half.
    pub b: usize,
    /// Start of the chunk whose merged buffer is being copied back.
    pub chunk: usize,
    /// Merged contents of the current chunk.
    pub temp: Vec<u16>,
    /// Next buffer element to copy back.
    pub pos: usize,
    /// The multiset of elements the animation started with; restored in the
    /// array whenever no copy-back is pending.
    pub init: Ghost<Multiset<u16>>,
    /// Index of the current chunk within this pass: `chunk == bidx * b`.
    pub bidx: Ghost<int>,
}

impl MergeEngine {
    /// Size of the chunk starting at `self.chunk`.
    pub open spec fn loaded_len(&self, s: Seq<u16>) -> int {
        if self.b <= s.len() - self.chunk {
            self.b as int
        } else {
            s.len() - self.chunk
        }
    }

    /// Resumption-state invariant, relative to the array contents `s`: the
    /// buffer is the merge of the current chunk, the completed-copy view
    /// always holds exactly the starting elements, every chunk this pass
    /// has already merged is sorted in that view, and every half-chunk
    /// still ahead of it is sorted from the previous pass.
    pub open spec fn wf(&self, s: Seq<u16>) -> bool {
        let v = virt(s, self.chunk as int, self.temp@, self.pos as int);
        let n = s.len() as int;
        let bb = self.b as int;
        let half = self.b as int / 2;
        &&& s.len() <= MAX_LEN
        &&& self.b >= 2
        &&& self.b % 2 == 0
        &&& (s.len() >= 1 ==> self.b <= 2 * s.len())
        &&& (if s.len() == 0 {
            self.chunk == 0 && self.temp@.len() == 0 && self.pos == 0
        } else {
            self.chunk < s.len() && self.temp@.len() == self.loaded_len(s) && self.pos
                <= self.temp@.len()
        })
        &&& v.to_multiset() == self.init@
        &&& self.bidx@ >= 0
        &&& self.bidx@ * bb == self.chunk
        &&& forall|k: int|
            0 <= k <= self.bidx@ ==> #[trigger] sorted_range(v, k * bb, min_int(k * bb + bb, n))
        &&& forall|k: int|
            k >= 0 && self.chunk + self.temp@.len() <= k * half ==> #[trigger] sorted_range(
                v,
                k * half,
                min_int(k * half + half, n),
            )
    }

    /// Progress potential: the writes left in the current pass plus one
    /// full pass of writes for every pass still to come.  Every copy-back
    /// write decreases it by one and nothing increases it, so every
    /// `Continue` tick decreases it by the whole budget.
    pub open spec fn spec_measure(&self, s: Seq<u16>) -> int {
        (s.len() - self.chunk - self.pos) + s.len() * passes_after(self.b as int, s.len() as int)
    }

    /// The potential never falls below zero.
    pub proof fn lemma_measure_nonneg(self, s: Seq<u16>)
        requires
            self.wf(s),
        ensures
            self.spec_measure(s) >= 0,
    {
        lemma_passes_after_nonneg(self.b as int, s.len() as int);
        assert(s.len() * passes_after(self.b as int, s.len() as int) >= 0) by (nonlinear_arith)
            requires
                s.len() >= 0,
                passes_after(self.b as int, s.len() as int) >= 0,
        ;
    }

    /// Start the first pass (run size 2) with the first chunk merged.
    pub fn new(a: &ArrayModel) -> (r: MergeEngine)
        requires
            a.wf(),
        ensures
            r.wf(a@),
            r.init@ == a@.to_multiset(),
    {
        let len: usize = a.len();
        if len == 0 {
            let r = MergeEngine {
                b: 2,
                chunk: 0,
                temp: Vec::new(),
                pos: 0,
                init: Ghost(a@.to_multiset()),
                bidx: Ghost(0),
            };
            proof {
                assert(virt(a@, 0, Seq::<u16>::empty(), 0) =~= a@);
            }
            r
        } else {
            let end: usize = if len < 2 {
                len
            } else {
                2
            };
            let temp = merge_runs(a, 0, 1, end);
            proof {
                lemma_loaded_virt(a@, 0, 1, end as int, temp@);
                let n = a@.len() as int;
                let v = virt(a@, 0, temp@, 0);
                assert(sorted(a@.subrange(0, 1)));
                assert(sorted(a@.subrange(1, end as int)));
                lemma_merge_spec_sorted(a@.subrange(0, 1), a@.subrange(1, end as int));
                assert(forall|m: int| 0 <= m < temp@.len() ==> v[m] == temp@[m]);
                lemma_sorted_range_of_embedded(v, temp@, 0);
                assert forall|k: int|
                    0 <= k <= 0 implies #[trigger] sorted_range(v, k * 2, min_int(k * 2 + 2, n)) by {
                    assert(k * 2 == 0) by (nonlinear_arith)
                        requires
                            k == 0,
                    ;
                    assert(min_int(2, n) == temp@.len());
                    assert(sorted_range(v, 0, temp@.len() as int));
                }
                assert forall|k: int|
                    k >= 0 && temp@.len() <= k * 1 implies #[trigger] sorted_range(
                    v,
                    k * 1,
                    min_int(k * 1 + 1, n),
                ) by {
                    assert(k * 1 == k) by (nonlinear_arith);
                    assert forall|i: int, j: int|
                        0 <= i && k <= i <= j < min_int(k + 1, n) implies v[i] <= v[j] by {
                        assert(i == j);
                    }
                    assert(sorted_range(v, k, min_int(k + 1, n)));
                }
            }
            MergeEngine {
                b: 2,
                chunk: 0,
                temp,
                pos: 0,
                init: Ghost(a@.to_multiset()),
                bidx: Ghost(0),
            }
        }
    }

    /// Perform up to `speed` copy-back writes.  `Continue` means the budget
    /// was exhausted exactly, possibly in the middle of a chunk; `Done`
    /// means a full pass has completed with a run size exceeding the array
    /// length, and the array is then sorted and holds exactly the starting
    /// elements.  Every `Continue` tick strictly decreases
    /// [`Self::spec_measure`], which never falls below zero, so the
    /// animation completes after a bounded number of ticks.
    #[verifier::rlimit(80)]
    pub fn tick(&mut self, a: &mut ArrayModel, speed: u16) -> (r: TickResult)
        requires
            old(self).wf(old(a)@),
            old(a).wf(),
            speed >= 1,
        ensures
            final(a).wf(),
            final(self).wf(final(a)@),
            final(a)@.len() == old(a)@.len(),
            final(self).init == old(self).init,
            final(a).spec_mods() <= speed as nat,
            r == TickResult::Continue ==> final(a).spec_mods() == speed as nat,
            r == TickResult::Done ==> final(a)@.to_multiset() == old(self).init@ && sorted(
                final(a)@,
            ),
            r == TickResult::Continue ==> final(self).spec_measure(final(a)@) < old(
                self,
            ).spec_measure(old(a)@),
    {
        a.reset_mods();
        loop
            invariant
                a.wf(),
                self.wf(a@),
                a@.len() == old(a)@.len(),
                self.init == old(self).init,
                a.spec_mods() < speed as nat,
                speed >= 1,
                self.spec_measure(a@) + a.spec_mods() == old(self).spec_measure(old(a)@),
            decreases
                speed as int - a.spec_mods(),
                (if 2 * a@.len() >= self.b {
                    2 * a@.len() - self.b
                } else {
                    0int
                }),
                a@.len() - self.chunk,
                self.temp@.len() - self.pos,
        {
            if self.pos < self.temp.len() {
                let ghost s = a@;
                a.write(self.chunk + self.pos, self.temp[self.pos]);
                proof {
                    lemma_virt_write(s, self.chunk as int, self.temp@, self.pos as int);
                }
                self.pos = self.pos + 1;
                if a.mods() == speed as usize {
                    return TickResult::Continue;
                }
            } else {
                proof {
                    lemma_virt_done(a@, self.chunk as int, self.temp@);
                }
                let len: usize = a.len();
                let next: usize = self.chunk + self.temp.len();
                if next < len {
                    // Same pass, next chunk.
                    let mid: usize = if next + self.b / 2 < len {
                        next + self.b / 2
                    } else {
                        len
                    };
                    let end: usize = if next + self.b < len {
                        next + self.b
                    } else {
                        len
                    };
                    let t = merge_runs(a, next, mid, end);
                    proof {
                        lemma_loaded_virt(a@, next as int, mid as int, end as int, t@);
                        let s = a@;
                        let n = s.len() as int;
                        let bb = self.b as int;
                        let half = bb / 2;
                        let bi = self.bidx@;
                        assert(self.temp@.len() == bb);
                        assert((bi + 1) * bb == next) by (nonlinear_arith)
                            requires
                                bi * bb == self.chunk,
                                next == self.chunk + bb,
                        ;
                        assert(mid as int == min_int((bi + 1) * bb + half, n));
                        assert(end as int == min_int((bi + 1) * bb + bb, n));
                        assert(t@.len() == min_int(bb, n - (bi + 1) * bb));
                        lemma_advance_blocks(s, bb, bi, t@);
                    }
                    self.chunk = next;
                    self.temp = t;
                    self.pos = 0;
                    proof {
                        self.bidx@ = self.bidx@ + 1;
                    }
                } else {
                    // Pass complete.
                    if self.b > len {
                        proof {
                            let n = a@.len() as int;
                            let bb = self.b as int;
                            if n >= 1 {
                                assert(0 * bb == 0) by (nonlinear_arith);
                                assert(sorted_range(a@, 0 * bb, min_int(0 * bb + bb, n)));
                                assert(min_int(bb, n) == n);
                            }
                        }
                        return TickResult::Done;
                    }
                    let ghost oldchunk = self.chunk as int;
                    let ghost oldtemplen = self.temp@.len() as int;
                    self.b = self.b * 2;
                    self.chunk = 0;
                    let mid: usize = if self.b / 2 < len {
                        self.b / 2
                    } else {
                        len
                    };
                    let end: usize = if self.b < len {
                        self.b
                    } else {
                        len
                    };
                    let t = merge_runs(a, 0, mid, end);
                    proof {
                        lemma_loaded_virt(a@, 0, mid as int, end as int, t@);
                        let s = a@;
                        let n = s.len() as int;
                        let bb = (self.b / 2) as int;
                        let bi = self.bidx@;
                        assert(n <= (bi + 1) * bb) by (nonlinear_arith)
                            requires
                                bi * bb == oldchunk,
                                oldchunk + oldtemplen >= n,
                                oldtemplen <= bb,
                        ;
                        assert(mid as int == min_int(bb, n));
                        assert(end as int == min_int(2 * bb, n));
                        assert(t@.len() == min_int(2 * bb, n));
                        lemma_pass_blocks(s, bb, bi, t@);
                        assert(0 * (2 * bb) == 0) by (nonlinear_arith);
                        assert(passes_after(bb, n) == 1 + passes_after(2 * bb, n));
                        assert(n * (1 + passes_after(2 * bb, n)) == n + n * passes_after(
                            2 * bb,
                            n,
                        )) by (nonlinear_arith);
                    }
                    self.temp = t;
                    self.pos = 0;
                    proof {
                        self.bidx@ = 0;
                    }
                }
            }
        }
    }
}

} // verus!
