//! Projection of an array snapshot to renderable vertices.
//!
//! Each element becomes one vertical stroke of a line list: a baseline
//! vertex and a value-height vertex.  Canvas coordinates are normalized to
//! `[-1, 1]`; for an array of length `L`, element `i` with value `v` sits at
//! `x = -1 + i * (2 / L)`, its baseline at `y = -1`, and its top at
//! `y = -1 + h * normalize(v)` where `normalize` linearly rescales the legal
//! value range `[1, L]` to `[1, L / 2]` and `h` is the height of one pixel
//! row, `2 / (L / 2)`.  Those coordinates are exact rationals with common
//! denominator `L`, so a vertex stores the integer numerators and the host
//! renderer performs the single division to floating point.

use vstd::prelude::*;
use crate::array::ArrayModel;

verus! {

/// A 2D position given as integer numerators over the array length: the
/// canvas coordinate is `(x / L, y / L)` for an array of length `L`.
#[derive(Clone, Copy, PartialEq, Eq, Structural, Debug)]
pub struct Vertex {
    pub x: i32,
    pub y: i32,
}

/// The baseline vertex of the stroke for element `i`: `(-1 + 2i/L, -1)`.
pub open spec fn bar_base(len: int, i: int) -> Vertex {
    Vertex { x: (2 * i - len) as i32, y: (-len) as i32 }
}

/// The value-height vertex of the stroke for element `i` holding `v`:
/// `(-1 + 2i/L, -1 + (2v + 2)/L)`, which is `-1 + h * normalize(v)` for
/// `h = 2/(L/2)` and `normalize(v) = (v - 1)/2 + 1`.
pub open spec fn bar_top(len: int, i: int, v: u16) -> Vertex {
    Vertex { x: (2 * i - len) as i32, y: (2 * v + 2 - len) as i32 }
}

/// The full projection: two vertices per element, in array order.
pub open spec fn spec_project(s: Seq<u16>) -> Seq<Vertex> {
    Seq::new(
        2 * s.len(),
        |k: int|
            if k % 2 == 0 {
                bar_base(s.len() as int, k / 2)
            } else {
                bar_top(s.len() as int, k / 2, s[k / 2])
            },
    )
}

/// The projection is a function of the array contents alone, and it always
/// yields exactly two vertices per element.
pub proof fn lemma_projection_deterministic(s1: Seq<u16>, s2: Seq<u16>)
    requires
        s1 == s2,
    ensures
        spec_project(s1) == spec_project(s2),
        spec_project(s1).len() == 2 * s1.len(),
{
}

/// Regenerate the vertex list for the current array contents.
pub fn project(a: &ArrayModel) -> (r: Vec<Vertex>)
    requires
        a.wf(),
    ensures
        r@ == spec_project(a@),
        r@.len() == 2 * a@.len(),
{
    let len: usize = a.len();
    let mut out: Vec<Vertex> = Vec::new();
    let mut i: usize = 0;
    while i < len
        invariant
            a.wf(),
            len == a@.len(),
            i <= len,
            out@ == spec_project(a@).take(2 * i),
        decreases len - i,
    {
        let v: u16 = a.read(i);
        let l: i32 = len as i32;
        let xi: i32 = 2 * (i as i32) - l;
        out.push(Vertex { x: xi, y: -l });
        out.push(Vertex { x: xi, y: 2 * (v as i32) + 2 - l });
        i = i + 1;
        assert(out@ =~= spec_project(a@).take(2 * i));
    }
    assert(spec_project(a@).take(2 * len) =~= spec_project(a@));
    out
}

} // verus!
