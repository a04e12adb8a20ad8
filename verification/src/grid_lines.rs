//! Enumeration of the integer grid lines strictly inside a bounding rectangle.

use vstd::prelude::*;

verus! {

use vstd::arithmetic::div_mod::lemma_fundamental_div_mod;
use crate::fixed::Bounds;
use crate::fixed::SCALE;
use crate::fixed::floor_px;
use crate::fixed::in_coord;

/// The smallest integer line strictly above the coordinate `a`.
pub open spec fn first_interior(a: int) -> int {
    a / (SCALE as int) + 1
}

/// The largest integer line strictly below the coordinate `b`.
pub open spec fn last_interior(b: int) -> int {
    if b % (SCALE as int) == 0 {
        b / (SCALE as int) - 1
    } else {
        b / (SCALE as int)
    }
}

/// The interior lines are exactly the integers `h` with `a < h * SCALE < b`.
pub proof fn lemma_interior_characterization(a: int, b: int, h: int)
    ensures
        (first_interior(a) <= h <= last_interior(b)) <==> (a < h * (SCALE as int) < b),
{
    lemma_fundamental_div_mod(a, SCALE as int);
    lemma_fundamental_div_mod(b, SCALE as int);
}

/// Translating the coordinate by a whole number of pixels translates the
/// interior lines by the same number: together with the walk's translation
/// law, moving the input by integer offsets moves every output with it.
pub proof fn lemma_interior_translates(a: int, d: int)
    ensures
        first_interior(a + d * (SCALE as int)) == first_interior(a) + d,
        last_interior(a + d * (SCALE as int)) == last_interior(a) + d,
{
    vstd::arithmetic::div_mod::lemma_hoist_over_denominator(a, d, SCALE as nat);
    vstd::arithmetic::div_mod::lemma_mod_multiples_vanish(d, a, SCALE as int);
    assert((a + d * (SCALE as int)) / (SCALE as int) == a / (SCALE as int) + d);
    assert((SCALE as int) * d + a == a + d * (SCALE as int));
    assert((a + d * (SCALE as int)) % (SCALE as int) == a % (SCALE as int));
}

/// Enumerates, in ascending order, the integer lines strictly between `a` and `b`.
fn interior_lines(a: i64, b: i64) -> (r: Vec<i64>)
    requires
        in_coord(a as int),
        in_coord(b as int),
    ensures
        r@.len() == (if last_interior(b as int) >= first_interior(a as int) {
            (last_interior(b as int) - first_interior(a as int) + 1) as nat
        } else {
            0nat
        }),
        forall|i: int|
            0 <= i < r@.len() ==> r@[i] == first_interior(a as int) + i,
{
    let first: i64 = floor_px(a) + 1;
    let fp: i64 = floor_px(b);
    proof {
        lemma_fundamental_div_mod(b as int, SCALE as int);
    }
    let last: i64 = if fp * SCALE == b {
        fp - 1
    } else {
        fp
    };
    let mut v: Vec<i64> = Vec::new();
    if first > last {
        return v;
    }
    let mut h: i64 = first;
    while h <= last
        invariant
            first <= h <= last + 1,
            first == first_interior(a as int),
            last == last_interior(b as int),
            -0x10000 <= first,
            last <= 0x10000,
            v@.len() == (h - first) as nat,
            forall|i: int| 0 <= i < v@.len() ==> v@[i] == first + i,
        decreases last + 1 - h,
    {
        v.push(h);
        h = h + 1;
    }
    v
}

/// Enumerates the horizontal and vertical grid lines strictly inside a bounds
/// rectangle, each axis in ascending order.
pub struct GridLinesIter {
    pub bounds: Bounds,
}

impl GridLinesIter {
    pub fn new(bounds: Bounds) -> (r: GridLinesIter)
        ensures
            r.bounds == bounds,
    {
        GridLinesIter { bounds }
    }

    /// The integer horizontal lines `h` with `min.y < h * SCALE < max.y`.
    pub fn horizontal(&self) -> (r: Vec<i64>)
        requires
            self.bounds.min.in_range(),
            self.bounds.max.in_range(),
        ensures
            r@.len() == (if last_interior(self.bounds.max.y as int) >= first_interior(
                self.bounds.min.y as int,
            ) {
                (last_interior(self.bounds.max.y as int) - first_interior(
                    self.bounds.min.y as int,
                ) + 1) as nat
            } else {
                0nat
            }),
            forall|i: int|
                0 <= i < r@.len() ==> r@[i] == first_interior(self.bounds.min.y as int) + i,
    {
        interior_lines(self.bounds.min.y, self.bounds.max.y)
    }

    /// The integer vertical lines `v` with `min.x < v * SCALE < max.x`.
    pub fn vertical(&self) -> (r: Vec<i64>)
        requires
            self.bounds.min.in_range(),
            self.bounds.max.in_range(),
        ensures
            r@.len() == (if last_interior(self.bounds.max.x as int) >= first_interior(
                self.bounds.min.x as int,
            ) {
                (last_interior(self.bounds.max.x as int) - first_interior(
                    self.bounds.min.x as int,
                ) + 1) as nat
            } else {
                0nat
            }),
            forall|i: int|
                0 <= i < r@.len() ==> r@[i] == first_interior(self.bounds.min.x as int) + i,
    {
        interior_lines(self.bounds.min.x, self.bounds.max.x)
    }
}

} // verus!
