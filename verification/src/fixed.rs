//! Fixed-point subpixel coordinates.
//!
//! A coordinate is an `i64` counting subpixel units: `SCALE` units make one
//! pixel. Pixel indices are the floor of a coordinate divided by `SCALE`.

use vstd::prelude::*;

verus! {

use vstd::arithmetic::div_mod::lemma_fundamental_div_mod;
use vstd::arithmetic::div_mod::lemma_fundamental_div_mod_converse;

/// Subpixel units per pixel.
pub const SCALE: i64 = 65536;

/// Largest magnitude a coordinate may have, in subpixel units (32768 pixels).
pub const COORD_MAX: i64 = 0x8000_0000;

/// A coordinate within the range the library's arithmetic is proved safe for.
pub open spec fn in_coord(c: int) -> bool {
    -(COORD_MAX as int) <= c <= COORD_MAX as int
}

/// A line coordinate that may be queried against a segment: a few pixels
/// beyond the coordinate range, so that every sample point of an extreme
/// boundary pixel is still a valid query.
pub open spec fn in_query(c: int) -> bool {
    -(COORD_MAX as int + 8 * SCALE as int) <= c <= COORD_MAX as int + 8 * SCALE as int
}

/// A 2D point in subpixel units.
#[derive(Clone, Copy, Debug, PartialEq, Eq, Structural)]
pub struct V2 {
    pub x: i64,
    pub y: i64,
}

impl V2 {
    /// Both components within the supported coordinate range.
    pub open spec fn in_range(self) -> bool {
        in_coord(self.x as int) && in_coord(self.y as int)
    }

    pub fn new(x: i64, y: i64) -> (r: V2)
        ensures
            r.x == x,
            r.y == y,
    {
        V2 { x, y }
    }
}

/// A closed axis-aligned rectangle in subpixel units.
#[derive(Clone, Copy, Debug, PartialEq, Eq, Structural)]
pub struct Bounds {
    pub min: V2,
    pub max: V2,
}

impl Bounds {
    pub open spec fn wf(self) -> bool {
        self.min.x <= self.max.x && self.min.y <= self.max.y
    }
}

/// Floor division: the unique `q` with `q * b <= a < (q + 1) * b` for `b > 0`.
pub fn fdiv(a: i128, b: i128) -> (q: i128)
    requires
        b > 0,
        a != i128::MIN,
    ensures
        q == a as int / b as int,
{
    if a >= 0 {
        let au: u128 = a as u128;
        let bu: u128 = b as u128;
        let qu: u128 = au / bu;
        proof {
            assert(au as int == a as int);
            assert(bu as int == b as int);
            assert(qu as int == au as int / bu as int);
        }
        qu as i128
    } else {
        let n: i128 = -a;
        let nu: u128 = n as u128;
        let bu: u128 = b as u128;
        let qu: u128 = nu / bu;
        let ru: u128 = nu % bu;
        proof {
            lemma_fundamental_div_mod(nu as int, bu as int);
            let ni: int = nu as int;
            let bi: int = b as int;
            let qi: int = qu as int;
            let ri: int = ru as int;
            assert(ni == bi * qi + ri);
            assert(a as int == -ni);
            if ru == 0 {
                assert(a as int == bi * (-qi) + 0) by (nonlinear_arith)
                    requires
                        ni == bi * qi + ri,
                        a as int == -ni,
                        ri == 0,
                ;
                lemma_fundamental_div_mod_converse(a as int, b as int, -qi, 0);
            } else {
                assert(a as int == bi * (-qi - 1) + (bi - ri)) by (nonlinear_arith)
                    requires
                        ni == bi * qi + ri,
                        a as int == -ni,
                ;
                lemma_fundamental_div_mod_converse(a as int, b as int, -qi - 1, bi - ri);
            }
        }
        if ru == 0 {
            -(qu as i128)
        } else {
            -(qu as i128) - 1
        }
    }
}

/// Rounding division to the nearest integer, halves rounding up, as a spec value.
pub open spec fn rdiv(a: int, b: int) -> int {
    (2 * a + b) / (2 * b)
}

/// Computes [`rdiv`] for a positive divisor.
pub fn rdiv_i128(a: i128, b: i128) -> (q: i128)
    requires
        0 < b < 0x1000_0000_0000_0000_0000_0000_0000_0000,
        -0x1000_0000_0000_0000_0000_0000_0000_0000 < a
            < 0x1000_0000_0000_0000_0000_0000_0000_0000,
    ensures
        q == rdiv(a as int, b as int),
{
    fdiv(2 * a + b, 2 * b)
}

/// The pixel index containing a subpixel coordinate.
pub open spec fn pixel_of(a: int) -> int {
    a / (SCALE as int)
}

/// Computes [`pixel_of`]: floor division of a coordinate by `SCALE`.
pub fn floor_px(a: i64) -> (r: i64)
    requires
        a != i64::MIN,
    ensures
        r == pixel_of(a as int),
        r * SCALE <= a < (r + 1) * SCALE,
{
    let q: i128 = fdiv(a as i128, SCALE as i128);
    proof {
        lemma_fundamental_div_mod(a as int, SCALE as int);
        assert(q * SCALE <= a < (q + 1) * SCALE);
    }
    q as i64
}

/// The pair `(min, max)` of its two arguments.
pub fn min_max(a: i64, b: i64) -> (r: (i64, i64))
    ensures
        r.0 <= r.1,
        (r.0 == a && r.1 == b) || (r.0 == b && r.1 == a),
{
    if a <= b {
        (a, b)
    } else {
        (b, a)
    }
}

} // verus!
