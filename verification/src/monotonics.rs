//! Monotone curve segments: lines, quadratic and cubic Bézier curves whose
//! `y` component is weakly monotone in the parameter.
//!
//! A curve point is a pair of polynomials in the parameter `t`, carried as
//! exact integer numerators over the denominator [`Segment::denom`]: the
//! parameter runs over `0..=T_ONE` and the numerator of an axis value at `t`
//! is [`poly_num`]. Grid-line crossings are found by integer bisection, which
//! returns a parameter bracketing the crossing to one part in `T_ONE`.

use vstd::prelude::*;

verus! {

use vstd::arithmetic::div_mod::lemma_fundamental_div_mod;
use vstd::arithmetic::div_mod::lemma_fundamental_div_mod_converse;
use vstd::arithmetic::div_mod::lemma_div_is_ordered;
use crate::fixed::Bounds;
use crate::fixed::COORD_MAX;
use crate::fixed::V2;
use crate::fixed::in_coord;
use crate::fixed::in_query;
use crate::fixed::SCALE;
use crate::fixed::min_max;
use crate::fixed::rdiv;
use crate::fixed::rdiv_i128;

/// The parameter value standing for `t = 1`; parameters run over `0..=T_ONE`.
pub const T_ONE: i64 = 65536;

/// A parametric point on a segment: the solved coordinate on the other axis,
/// and the parameter at which the segment meets the queried line.
#[derive(Clone, Copy, Debug, PartialEq, Eq, Structural)]
pub struct Intersection {
    pub axis: i64,
    pub t: i64,
}

/// A y-monotone curve segment.
#[derive(Clone, Copy, Debug, PartialEq, Eq, Structural)]
pub enum Segment {
    Line { p0: V2, p1: V2 },
    Quadratic { p0: V2, c: V2, p1: V2 },
    Cubic { p0: V2, c0: V2, c1: V2, p1: V2 },
}

/// Numerator of a degree-one Bernstein polynomial at `t`, over `T_ONE`.
pub open spec fn line_num(a: int, b: int, t: int) -> int {
    a * (T_ONE - t) + b * t
}

/// Numerator of a degree-two Bernstein polynomial at `t`, over `T_ONE^2`.
pub open spec fn quad_num(a: int, b: int, c: int, t: int) -> int {
    a * (T_ONE - t) * (T_ONE - t) + 2 * b * (T_ONE - t) * t + c * t * t
}

/// Numerator of a degree-three Bernstein polynomial at `t`, over `T_ONE^3`.
pub open spec fn cubic_num(a: int, b: int, c: int, d: int, t: int) -> int {
    a * (T_ONE - t) * (T_ONE - t) * (T_ONE - t) + 3 * b * (T_ONE - t) * (T_ONE - t) * t + 3 * c * (
    T_ONE - t) * t * t + d * t * t * t
}

/// Selects a point's component: `y` when `yaxis`, else `x`.
pub open spec fn axis_of(v: V2, yaxis: bool) -> int {
    if yaxis {
        v.y as int
    } else {
        v.x as int
    }
}

impl Segment {
    /// The starting point `C(0)`.
    pub open spec fn start(self) -> V2 {
        match self {
            Segment::Line { p0, .. } => p0,
            Segment::Quadratic { p0, .. } => p0,
            Segment::Cubic { p0, .. } => p0,
        }
    }

    /// The ending point `C(1)`.
    pub open spec fn end(self) -> V2 {
        match self {
            Segment::Line { p1, .. } => p1,
            Segment::Quadratic { p1, .. } => p1,
            Segment::Cubic { p1, .. } => p1,
        }
    }

    /// The common denominator of the segment's coordinate numerators.
    pub open spec fn denom(self) -> int {
        match self {
            Segment::Line { .. } => T_ONE as int,
            Segment::Quadratic { .. } => (T_ONE as int) * (T_ONE as int),
            Segment::Cubic { .. } => (T_ONE as int) * (T_ONE as int) * (T_ONE as int),
        }
    }

    /// All control points within the supported coordinate range.
    pub open spec fn in_range(self) -> bool {
        match self {
            Segment::Line { p0, p1 } => p0.in_range() && p1.in_range(),
            Segment::Quadratic { p0, c, p1 } => p0.in_range() && c.in_range() && p1.in_range(),
            Segment::Cubic { p0, c0, c1, p1 } => p0.in_range() && c0.in_range() && c1.in_range()
                && p1.in_range(),
        }
    }

    /// The control polygon is monotone in `x`; a sufficient condition for the
    /// curve itself to be x-monotone.
    pub open spec fn x_monotone(self) -> bool {
        match self {
            Segment::Line { .. } => true,
            Segment::Quadratic { p0, c, p1 } => (p0.x <= c.x && c.x <= p1.x) || (p0.x >= c.x
                && c.x >= p1.x),
            Segment::Cubic { p0, c0, c1, p1 } => (p0.x <= c0.x && c0.x <= c1.x && c1.x <= p1.x) || (
            p0.x >= c0.x && c0.x >= c1.x && c1.x >= p1.x),
        }
    }
}

/// Numerator of the segment's `y` (when `yaxis`) or `x` coordinate at `t`,
/// over [`Segment::denom`].
pub open spec fn poly_num(s: Segment, yaxis: bool, t: int) -> int {
    match s {
        Segment::Line { p0, p1 } => line_num(axis_of(p0, yaxis), axis_of(p1, yaxis), t),
        Segment::Quadratic { p0, c, p1 } => quad_num(
            axis_of(p0, yaxis),
            axis_of(c, yaxis),
            axis_of(p1, yaxis),
            t,
        ),
        Segment::Cubic { p0, c0, c1, p1 } => cubic_num(
            axis_of(p0, yaxis),
            axis_of(c0, yaxis),
            axis_of(c1, yaxis),
            axis_of(p1, yaxis),
            t,
        ),
    }
}

/// `t` sits on one end of a one-step parameter bracket around an exact
/// solution of `poly_num == tgt`.
pub open spec fn bracketed(s: Segment, yaxis: bool, tgt: int, t: int) -> bool {
    exists|u: int|
        0 <= u && u + 1 <= T_ONE && (t == u || t == u + 1) && ((#[trigger] poly_num(s, yaxis, u)
            <= tgt <= poly_num(s, yaxis, u + 1)) || (poly_num(s, yaxis, u) >= tgt >= poly_num(
            s,
            yaxis,
            u + 1,
        )))
}

/// The integer bisection, reflected in spec: from the bracket `lo..hi` the
/// search keeps the half whose ends still bracket the target, until the
/// bracket is one step wide.
pub open spec fn bisect_rec(s: Segment, yaxis: bool, tgt: int, inc: bool, lo: int, hi: int) -> int
    decreases hi - lo,
{
    if hi - lo <= 1 {
        lo
    } else {
        let mid = lo + (hi - lo) / 2;
        let go_lo = if inc {
            poly_num(s, yaxis, mid) <= tgt
        } else {
            poly_num(s, yaxis, mid) >= tgt
        };
        if go_lo {
            bisect_rec(s, yaxis, tgt, inc, mid, hi)
        } else {
            bisect_rec(s, yaxis, tgt, inc, lo, mid)
        }
    }
}

/// The parameter the solver returns for a target numerator: the low end of
/// the final bracket, snapped up when the high end solves exactly.
pub open spec fn bisect_spec(s: Segment, yaxis: bool, tgt: int, inc: bool) -> int {
    let lo = bisect_rec(s, yaxis, tgt, inc, 0, T_ONE as int);
    if poly_num(s, yaxis, lo + 1) == tgt {
        lo + 1
    } else {
        lo
    }
}

/// The sampler, reflected in spec: the exact value [`Segment::sample_y`] and
/// [`Segment::sample_x`] return for every segment and query line.
pub open spec fn sample_axis_spec(s: Segment, yaxis: bool, v: int) -> Option<Intersection> {
    if !yaxis && !s.x_monotone() {
        Option::None
    } else {
        let sv = axis_of(s.start(), yaxis);
        let ev = axis_of(s.end(), yaxis);
        if sv == ev || v < vstd::math::min(sv, ev) || v > vstd::math::max(sv, ev) {
            Option::None
        } else {
            let t = bisect_spec(s, yaxis, v * s.denom(), ev > sv);
            Option::Some(
                Intersection {
                    axis: rdiv(poly_num(s, !yaxis, t), s.denom()) as i64,
                    t: t as i64,
                },
            )
        }
    }
}

/// The bounds rectangle as a value of the segment alone.
pub open spec fn seg_bounds(s: Segment) -> Bounds {
    Bounds {
        min: V2 {
            x: s.hull_min_x() as i64,
            y: vstd::math::min(s.start().y as int, s.end().y as int) as i64,
        },
        max: V2 {
            x: s.hull_max_x() as i64,
            y: vstd::math::max(s.start().y as int, s.end().y as int) as i64,
        },
    }
}

proof fn lemma_mul_abs_le(x: int, y: int, bx: int, by: int)
    by (nonlinear_arith)
    requires
        -bx <= x <= bx,
        -by <= y <= by,
        0 <= bx,
        0 <= by,
    ensures
        -(bx * by) <= x * y <= bx * by,
{
}

/// Evaluates [`line_num`] exactly.
fn eval_line(a: i64, b: i64, t: i64) -> (r: i128)
    requires
        in_coord(a as int),
        in_coord(b as int),
        0 <= t <= T_ONE,
    ensures
        r == line_num(a as int, b as int, t as int),
{
    let u: i128 = (T_ONE - t) as i128;
    let ti: i128 = t as i128;
    proof {
        lemma_mul_abs_le(a as int, u as int, 0x8000_0000, 0x10000);
        lemma_mul_abs_le(b as int, ti as int, 0x8000_0000, 0x10000);
    }
    a as i128 * u + b as i128 * ti
}

/// Evaluates [`quad_num`] exactly.
fn eval_quad(a: i64, b: i64, c: i64, t: i64) -> (r: i128)
    requires
        in_coord(a as int),
        in_coord(b as int),
        in_coord(c as int),
        0 <= t <= T_ONE,
    ensures
        r == quad_num(a as int, b as int, c as int, t as int),
{
    let u: i128 = (T_ONE - t) as i128;
    let ti: i128 = t as i128;
    proof {
        lemma_mul_abs_le(a as int, u as int, 0x8000_0000, 0x10000);
        lemma_mul_abs_le(a as int * u as int, u as int, 0x8000_0000_0000, 0x10000);
        lemma_mul_abs_le(2 * b as int, u as int, 0x1_0000_0000, 0x10000);
        lemma_mul_abs_le(2 * b as int * u as int, ti as int, 0x1_0000_0000_0000, 0x10000);
        lemma_mul_abs_le(c as int, ti as int, 0x8000_0000, 0x10000);
        lemma_mul_abs_le(c as int * ti as int, ti as int, 0x8000_0000_0000, 0x10000);
    }
    a as i128 * u * u + 2 * b as i128 * u * ti + c as i128 * ti * ti
}

/// Evaluates [`cubic_num`] exactly.
fn eval_cubic(a: i64, b: i64, c: i64, d: i64, t: i64) -> (r: i128)
    requires
        in_coord(a as int),
        in_coord(b as int),
        in_coord(c as int),
        in_coord(d as int),
        0 <= t <= T_ONE,
    ensures
        r == cubic_num(a as int, b as int, c as int, d as int, t as int),
{
    let u: i128 = (T_ONE - t) as i128;
    let ti: i128 = t as i128;
    proof {
        lemma_mul_abs_le(a as int, u as int, 0x8000_0000, 0x10000);
        lemma_mul_abs_le(a as int * u as int, u as int, 0x8000_0000_0000, 0x10000);
        lemma_mul_abs_le(a as int * u as int * u as int, u as int, 0x8000_0000_0000_0000, 0x10000);
        lemma_mul_abs_le(3 * b as int, u as int, 0x1_8000_0000, 0x10000);
        lemma_mul_abs_le(3 * b as int * u as int, u as int, 0x1_8000_0000_0000, 0x10000);
        lemma_mul_abs_le(
            3 * b as int * u as int * u as int,
            ti as int,
            0x1_8000_0000_0000_0000,
            0x10000,
        );
        lemma_mul_abs_le(3 * c as int, u as int, 0x1_8000_0000, 0x10000);
        lemma_mul_abs_le(3 * c as int * u as int, ti as int, 0x1_8000_0000_0000, 0x10000);
        lemma_mul_abs_le(
            3 * c as int * u as int * ti as int,
            ti as int,
            0x1_8000_0000_0000_0000,
            0x10000,
        );
        lemma_mul_abs_le(d as int, ti as int, 0x8000_0000, 0x10000);
        lemma_mul_abs_le(d as int * ti as int, ti as int, 0x8000_0000_0000, 0x10000);
        lemma_mul_abs_le(d as int * ti as int * ti as int, ti as int, 0x8000_0000_0000_0000, 0x10000);
    }
    a as i128 * u * u * u + 3 * b as i128 * u * u * ti + 3 * c as i128 * u * ti * ti + d as i128 * ti
        * ti * ti
}

/// Evaluates [`poly_num`] exactly.
fn eval_poly(s: &Segment, yaxis: bool, t: i64) -> (r: i128)
    requires
        s.in_range(),
        0 <= t <= T_ONE,
    ensures
        r == poly_num(*s, yaxis, t as int),
{
    match s {
        Segment::Line { p0, p1 } => {
            if yaxis {
                eval_line(p0.y, p1.y, t)
            } else {
                eval_line(p0.x, p1.x, t)
            }
        },
        Segment::Quadratic { p0, c, p1 } => {
            if yaxis {
                eval_quad(p0.y, c.y, p1.y, t)
            } else {
                eval_quad(p0.x, c.x, p1.x, t)
            }
        },
        Segment::Cubic { p0, c0, c1, p1 } => {
            if yaxis {
                eval_cubic(p0.y, c0.y, c1.y, p1.y, t)
            } else {
                eval_cubic(p0.x, c0.x, c1.x, p1.x, t)
            }
        },
    }
}

/// Numerator values at the parameter's ends are the endpoint coordinates
/// scaled by the denominator.
proof fn lemma_poly_at_ends(s: Segment, yaxis: bool)
    ensures
        poly_num(s, yaxis, 0) == axis_of(s.start(), yaxis) * s.denom(),
        poly_num(s, yaxis, T_ONE as int) == axis_of(s.end(), yaxis) * s.denom(),
{
    let tm: int = T_ONE as int;
    match s {
        Segment::Line { p0, p1 } => {
            assert(line_num(axis_of(p0, yaxis), axis_of(p1, yaxis), 0) == axis_of(p0, yaxis) * tm);
            assert(line_num(axis_of(p0, yaxis), axis_of(p1, yaxis), tm) == axis_of(p1, yaxis) * tm);
        },
        Segment::Quadratic { p0, c, p1 } => {
            let a: int = axis_of(p0, yaxis);
            let b: int = axis_of(c, yaxis);
            let cc: int = axis_of(p1, yaxis);
            assert(quad_num(a, b, cc, 0) == a * (tm * tm)) by (nonlinear_arith)
                requires
                    tm == T_ONE as int,
            ;
            assert(quad_num(a, b, cc, tm) == cc * (tm * tm)) by (nonlinear_arith)
                requires
                    tm == T_ONE as int,
            ;
        },
        Segment::Cubic { p0, c0, c1, p1 } => {
            let a: int = axis_of(p0, yaxis);
            let b: int = axis_of(c0, yaxis);
            let cc: int = axis_of(c1, yaxis);
            let d: int = axis_of(p1, yaxis);
            assert(cubic_num(a, b, cc, d, 0) == a * (tm * tm * tm)) by (nonlinear_arith)
                requires
                    tm == T_ONE as int,
            ;
            assert(cubic_num(a, b, cc, d, tm) == d * (tm * tm * tm)) by (nonlinear_arith)
                requires
                    tm == T_ONE as int,
            ;
        },
    }
}

/// Over `0 <= t <= T_ONE` the numerator stays within the coordinate range
/// scaled by the denominator.
/// A coefficient within `±m` scaled by a nonnegative weight stays within
/// `±m` times the weight.
proof fn lemma_weighted_bound(a: int, w: int, m: int)
    by (nonlinear_arith)
    requires
        -m <= a <= m,
        w >= 0,
    ensures
        -(m * w) <= a * w <= m * w,
{
}

pub proof fn lemma_poly_num_bound(s: Segment, yaxis: bool, t: int)
    requires
        s.in_range(),
        0 <= t <= T_ONE,
    ensures
        -(COORD_MAX as int * s.denom()) <= poly_num(s, yaxis, t) <= COORD_MAX as int * s.denom(),
{
    let m: int = COORD_MAX as int;
    let tm: int = T_ONE as int;
    let u: int = tm - t;
    match s {
        Segment::Line { p0, p1 } => {
            let a: int = axis_of(p0, yaxis);
            let b: int = axis_of(p1, yaxis);
            lemma_weighted_bound(a, u, m);
            lemma_weighted_bound(b, t, m);
            assert(m * u + m * t == m * tm) by (nonlinear_arith)
                requires
                    u == tm - t,
            ;
        },
        Segment::Quadratic { p0, c, p1 } => {
            let a: int = axis_of(p0, yaxis);
            let b: int = axis_of(c, yaxis);
            let cc: int = axis_of(p1, yaxis);
            let w0: int = u * u;
            let w1: int = 2 * (u * t);
            let w2: int = t * t;
            assert(w0 >= 0 && w1 >= 0 && w2 >= 0 && w0 + w1 + w2 == tm * tm && quad_num(
                a,
                b,
                cc,
                t,
            ) == a * w0 + b * w1 + cc * w2) by (nonlinear_arith)
                requires
                    0 <= t <= tm,
                    u == tm - t,
                    w0 == u * u,
                    w1 == 2 * (u * t),
                    w2 == t * t,
                    tm == T_ONE as int,
            ;
            lemma_weighted_bound(a, w0, m);
            lemma_weighted_bound(b, w1, m);
            lemma_weighted_bound(cc, w2, m);
            assert(m * w0 + m * w1 + m * w2 == m * (tm * tm)) by (nonlinear_arith)
                requires
                    w0 + w1 + w2 == tm * tm,
            ;
        },
        Segment::Cubic { p0, c0, c1, p1 } => {
            let a: int = axis_of(p0, yaxis);
            let b: int = axis_of(c0, yaxis);
            let cc: int = axis_of(c1, yaxis);
            let d: int = axis_of(p1, yaxis);
            let w0: int = u * (u * u);
            let w1: int = 3 * (u * (u * t));
            let w2: int = 3 * (u * (t * t));
            let w3: int = t * (t * t);
            assert(w0 >= 0 && w1 >= 0 && w2 >= 0 && w3 >= 0) by (nonlinear_arith)
                requires
                    0 <= t <= tm,
                    u == tm - t,
                    w0 == u * (u * u),
                    w1 == 3 * (u * (u * t)),
                    w2 == 3 * (u * (t * t)),
                    w3 == t * (t * t),
            ;
            assert(w0 + w1 + w2 + w3 == tm * (tm * tm)) by (nonlinear_arith)
                requires
                    u == tm - t,
                    w0 == u * (u * u),
                    w1 == 3 * (u * (u * t)),
                    w2 == 3 * (u * (t * t)),
                    w3 == t * (t * t),
            ;
            let cn: int = cubic_num(a, b, cc, d, t);
            assert(cn == a * u * u * u + 3 * b * u * u * t + 3 * cc * u * t * t + d * t * t * t);
            assert(cn == a * w0 + b * w1 + cc * w2 + d * w3) by (nonlinear_arith)
                requires
                    cn == a * u * u * u + 3 * b * u * u * t + 3 * cc * u * t * t + d * t * t * t,
                    w0 == u * (u * u),
                    w1 == 3 * (u * (u * t)),
                    w2 == 3 * (u * (t * t)),
                    w3 == t * (t * t),
            ;
            lemma_weighted_bound(a, w0, m);
            lemma_weighted_bound(b, w1, m);
            lemma_weighted_bound(cc, w2, m);
            lemma_weighted_bound(d, w3, m);
            assert(m * w0 + m * w1 + m * w2 + m * w3 == m * (tm * (tm * tm)))
                by (nonlinear_arith)
                requires
                    w0 + w1 + w2 + w3 == tm * (tm * tm),
            ;
            assert(m * (tm * (tm * tm)) == m * (tm * tm * tm)) by (nonlinear_arith);
        },
    }
}

/// A rounding division of a value within `c` times the divisor stays within `c`.
pub proof fn lemma_rdiv_bound(a: int, b: int, c: int)
    requires
        b > 0,
        c >= 0,
        -(c * b) <= a <= c * b,
    ensures
        -c <= rdiv(a, b) <= c,
{
    let hi_v: int = c * (2 * b) + b;
    let lo_v: int = (-c) * (2 * b) + b;
    assert(2 * a + b <= hi_v && lo_v <= 2 * a + b) by (nonlinear_arith)
        requires
            b > 0,
            -(c * b) <= a <= c * b,
            hi_v == c * (2 * b) + b,
            lo_v == (-c) * (2 * b) + b,
    ;
    lemma_fundamental_div_mod_converse(hi_v, 2 * b, c, b);
    lemma_fundamental_div_mod_converse(lo_v, 2 * b, -c, b);
    lemma_div_is_ordered(2 * a + b, hi_v, 2 * b);
    lemma_div_is_ordered(lo_v, 2 * a + b, 2 * b);
}

/// Integer bisection for `poly_num(s, yaxis, t) == tgt` between the two ends
/// of the parameter range, assuming the target is bracketed by the endpoint
/// values in the direction given by `inc`.
fn bisect(s: &Segment, yaxis: bool, tgt: i128, inc: bool) -> (t: i64)
    requires
        s.in_range(),
        inc ==> poly_num(*s, yaxis, 0) <= tgt as int <= poly_num(*s, yaxis, T_ONE as int),
        !inc ==> poly_num(*s, yaxis, 0) >= tgt as int >= poly_num(*s, yaxis, T_ONE as int),
    ensures
        0 <= t <= T_ONE,
        bracketed(*s, yaxis, tgt as int, t as int),
        t == bisect_spec(*s, yaxis, tgt as int, inc),
{
    let mut lo: i64 = 0;
    let mut hi: i64 = T_ONE;
    while hi - lo > 1
        invariant
            0 <= lo < hi <= T_ONE,
            s.in_range(),
            inc ==> poly_num(*s, yaxis, lo as int) <= tgt as int <= poly_num(*s, yaxis, hi as int),
            !inc ==> poly_num(*s, yaxis, lo as int) >= tgt as int >= poly_num(*s, yaxis, hi as int),
            bisect_rec(*s, yaxis, tgt as int, inc, lo as int, hi as int) == bisect_rec(
                *s,
                yaxis,
                tgt as int,
                inc,
                0,
                T_ONE as int,
            ),
        decreases hi - lo,
    {
        let mid: i64 = lo + ((hi - lo) as u64 / 2) as i64;
        proof {
            lemma_fundamental_div_mod((hi - lo) as int, 2);
            assert(mid as int == lo + (hi - lo) / 2);
        }
        let v: i128 = eval_poly(s, yaxis, mid);
        let go_lo: bool = if inc {
            v <= tgt
        } else {
            v >= tgt
        };
        proof {
            assert(bisect_rec(*s, yaxis, tgt as int, inc, lo as int, hi as int) == (if go_lo {
                bisect_rec(*s, yaxis, tgt as int, inc, mid as int, hi as int)
            } else {
                bisect_rec(*s, yaxis, tgt as int, inc, lo as int, mid as int)
            }));
        }
        if go_lo {
            lo = mid;
        } else {
            hi = mid;
        }
    }
    proof {
        assert(bisect_rec(*s, yaxis, tgt as int, inc, lo as int, hi as int) == lo);
    }
    let vhi: i128 = eval_poly(s, yaxis, hi);
    let t: i64 = if vhi == tgt {
        hi
    } else {
        lo
    };
    proof {
        let u: int = lo as int;
        assert(0 <= u && u + 1 <= T_ONE && (t as int == u || t as int == u + 1) && ((poly_num(
            *s,
            yaxis,
            u,
        ) <= tgt as int <= poly_num(*s, yaxis, u + 1)) || (poly_num(*s, yaxis, u) >= tgt as int
            >= poly_num(*s, yaxis, u + 1))));
    }
    t
}

impl Segment {
    /// Whether the control polygon is monotone in `x` (see [`Segment::x_monotone`]).
    pub fn is_x_monotone(&self) -> (r: bool)
        ensures
            r == self.x_monotone(),
    {
        match self {
            Segment::Line { .. } => true,
            Segment::Quadratic { p0, c, p1 } => (p0.x <= c.x && c.x <= p1.x) || (p0.x >= c.x && c.x
                >= p1.x),
            Segment::Cubic { p0, c0, c1, p1 } => (p0.x <= c0.x && c0.x <= c1.x && c1.x <= p1.x) || (
            p0.x >= c0.x && c0.x >= c1.x && c1.x >= p1.x),
        }
    }

    /// The segment's two endpoints `(C(0), C(1))`.
    pub fn bookends(&self) -> (r: (V2, V2))
        ensures
            r.0 == self.start(),
            r.1 == self.end(),
    {
        match self {
            Segment::Line { p0, p1 } => (*p0, *p1),
            Segment::Quadratic { p0, p1, .. } => (*p0, *p1),
            Segment::Cubic { p0, p1, .. } => (*p0, *p1),
        }
    }

    /// Solves `C(t)` on one axis for the line coordinate `v`, by bisection.
    /// Returns the solved other-axis coordinate (rounded to the nearest
    /// subpixel unit) and the parameter.
    fn sample_axis(&self, yaxis: bool, v: i64) -> (r: Option<Intersection>)
        requires
            self.in_range(),
            in_query(v as int),
        ensures
            r is Some <==> ((yaxis || self.x_monotone()) && axis_of(self.start(), yaxis) != axis_of(
                self.end(),
                yaxis,
            ) && (axis_of(self.start(), yaxis) <= v <= axis_of(self.end(), yaxis) || axis_of(
                self.end(),
                yaxis,
            ) <= v <= axis_of(self.start(), yaxis))),
            r matches Some(it) ==> {
                &&& 0 <= it.t <= T_ONE
                &&& bracketed(*self, yaxis, v * self.denom(), it.t as int)
                &&& it.axis == rdiv(poly_num(*self, !yaxis, it.t as int), self.denom())
                &&& in_coord(it.axis as int)
            },
            r == sample_axis_spec(*self, yaxis, v as int),
    {
        if !yaxis && !self.is_x_monotone() {
            return None;
        }
        let (sp, ep) = self.bookends();
        let sv: i64 = if yaxis {
            sp.y
        } else {
            sp.x
        };
        let ev: i64 = if yaxis {
            ep.y
        } else {
            ep.x
        };
        if sv == ev {
            return None;
        }
        let (mn, mx) = min_max(sv, ev);
        if v < mn || v > mx {
            return None;
        }
        let d: i128 = match self {
            Segment::Line { .. } => 65536,
            Segment::Quadratic { .. } => 0x1_0000_0000,
            Segment::Cubic { .. } => 0x1_0000_0000_0000,
        };
        proof {
            assert(d as int == self.denom()) by (nonlinear_arith)
                requires
                    d as int == (match *self {
                        Segment::Line { .. } => 65536int,
                        Segment::Quadratic { .. } => 0x1_0000_0000int,
                        Segment::Cubic { .. } => 0x1_0000_0000_0000int,
                    }),
                    self.denom() == (match *self {
                        Segment::Line { .. } => T_ONE as int,
                        Segment::Quadratic { .. } => (T_ONE as int) * (T_ONE as int),
                        Segment::Cubic { .. } => (T_ONE as int) * (T_ONE as int) * (T_ONE as int),
                    }),
            ;
            lemma_mul_abs_le(v as int, d as int, COORD_MAX as int + 8 * SCALE as int, 0x1_0000_0000_0000);
        }
        let tgt: i128 = v as i128 * d;
        let inc: bool = ev > sv;
        proof {
            lemma_poly_at_ends(*self, yaxis);
            assert(sv as int * d as int <= v as int * d as int <= ev as int * d as int || ev as int
                * d as int <= v as int * d as int <= sv as int * d as int) by (nonlinear_arith)
                requires
                    d as int > 0,
                    sv <= v <= ev || ev <= v <= sv,
            ;
        }
        let t: i64 = bisect(self, yaxis, tgt, inc);
        let other: i128 = eval_poly(self, !yaxis, t);
        proof {
            lemma_poly_num_bound(*self, !yaxis, t as int);
            lemma_rdiv_bound(other as int, d as int, COORD_MAX as int);
        }
        let axis: i128 = rdiv_i128(other, d);
        proof {
            assert(mn as int == vstd::math::min(sv as int, ev as int));
            assert(mx as int == vstd::math::max(sv as int, ev as int));
            assert(t == bisect_spec(*self, yaxis, v as int * self.denom(), ev > sv));
        }
        Some(Intersection { axis: axis as i64, t })
    }

    /// Finds the crossing of the horizontal line at `y` (subpixel units):
    /// the `x` coordinate and parameter where `C(t).y == y`, when `y` lies
    /// within the segment's vertical extent.
    pub fn sample_y(&self, y: i64) -> (r: Option<Intersection>)
        requires
            self.in_range(),
            in_query(y as int),
        ensures
            r is Some <==> (self.start().y != self.end().y && (self.start().y <= y
                <= self.end().y || self.end().y <= y <= self.start().y)),
            r matches Some(it) ==> {
                &&& 0 <= it.t <= T_ONE
                &&& bracketed(*self, true, y * self.denom(), it.t as int)
                &&& it.axis == rdiv(poly_num(*self, false, it.t as int), self.denom())
                &&& in_coord(it.axis as int)
            },
            r == sample_axis_spec(*self, true, y as int),
    {
        self.sample_axis(true, y)
    }

    /// Finds the crossing of the vertical line at `x` (subpixel units), when
    /// the control polygon is x-monotone and `x` lies within the segment's
    /// horizontal extent; otherwise `None`. The control-polygon test is a
    /// deliberate sufficient condition for x-monotonicity of the curve: a
    /// curve that is x-monotone with a folded control polygon is declined,
    /// and its vertical crossings are recovered through the horizontal
    /// sampling of adjacent rows.
    pub fn sample_x(&self, x: i64) -> (r: Option<Intersection>)
        requires
            self.in_range(),
            in_query(x as int),
        ensures
            r is Some <==> (self.x_monotone() && self.start().x != self.end().x && (self.start().x
                <= x <= self.end().x || self.end().x <= x <= self.start().x)),
            r matches Some(it) ==> {
                &&& 0 <= it.t <= T_ONE
                &&& bracketed(*self, false, x * self.denom(), it.t as int)
                &&& it.axis == rdiv(poly_num(*self, true, it.t as int), self.denom())
                &&& in_coord(it.axis as int)
            },
            r == sample_axis_spec(*self, false, x as int),
    {
        self.sample_axis(false, x)
    }
}


impl Segment {
    /// The smallest control-polygon `x` coordinate; a lower bound for the
    /// curve's `x` extent, tight when the control polygon is x-monotone.
    pub open spec fn hull_min_x(self) -> int {
        match self {
            Segment::Line { p0, p1 } => vstd::math::min(p0.x as int, p1.x as int),
            Segment::Quadratic { p0, c, p1 } => vstd::math::min(
                p0.x as int,
                vstd::math::min(c.x as int, p1.x as int),
            ),
            Segment::Cubic { p0, c0, c1, p1 } => vstd::math::min(
                vstd::math::min(p0.x as int, c0.x as int),
                vstd::math::min(c1.x as int, p1.x as int),
            ),
        }
    }

    /// The largest control-polygon `x` coordinate.
    pub open spec fn hull_max_x(self) -> int {
        match self {
            Segment::Line { p0, p1 } => vstd::math::max(p0.x as int, p1.x as int),
            Segment::Quadratic { p0, c, p1 } => vstd::math::max(
                p0.x as int,
                vstd::math::max(c.x as int, p1.x as int),
            ),
            Segment::Cubic { p0, c0, c1, p1 } => vstd::math::max(
                vstd::math::max(p0.x as int, c0.x as int),
                vstd::math::max(c1.x as int, p1.x as int),
            ),
        }
    }

    /// The bounding rectangle used for grid-line enumeration: exact endpoint
    /// extent in `y` (the segment is y-monotone), control-polygon hull in `x`.
    pub fn bounds(&self) -> (r: Bounds)
        requires
            self.in_range(),
        ensures
            r.wf(),
            r.min.in_range(),
            r.max.in_range(),
            r.min.y == vstd::math::min(self.start().y as int, self.end().y as int),
            r.max.y == vstd::math::max(self.start().y as int, self.end().y as int),
            r.min.x == self.hull_min_x(),
            r.max.x == self.hull_max_x(),
            r == seg_bounds(*self),
    {
        let (lo_y, hi_y) = match self {
            Segment::Line { p0, p1 } => min_max(p0.y, p1.y),
            Segment::Quadratic { p0, p1, .. } => min_max(p0.y, p1.y),
            Segment::Cubic { p0, p1, .. } => min_max(p0.y, p1.y),
        };
        let (lo_x, hi_x) = match self {
            Segment::Line { p0, p1 } => min_max(p0.x, p1.x),
            Segment::Quadratic { p0, c, p1 } => {
                let (l1, h1) = min_max(c.x, p1.x);
                let (l2, _) = min_max(p0.x, l1);
                let (_, h2) = min_max(p0.x, h1);
                (l2, h2)
            },
            Segment::Cubic { p0, c0, c1, p1 } => {
                let (l1, h1) = min_max(p0.x, c0.x);
                let (l2, h2) = min_max(c1.x, p1.x);
                let (l3, _) = min_max(l1, l2);
                let (_, h3) = min_max(h1, h2);
                (l3, h3)
            },
        };
        Bounds { min: V2 { x: lo_x, y: lo_y }, max: V2 { x: hi_x, y: hi_y } }
    }
}

} // verus!
