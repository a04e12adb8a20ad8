//! Subpixel coverage estimation for boundary pixels.
//!
//! A boundary pixel is sampled on a fixed subsample grid; each sample casts a
//! ray toward `+x` and counts segment crossings, and the even-odd rule
//! decides whether the sample is interior. Coverage is reported as the exact
//! fraction `covered / samples`.

use vstd::prelude::*;

verus! {

use crate::fixed::SCALE;
use crate::monotonics::Segment;
use crate::monotonics::sample_axis_spec;
use crate::regions::in_pixel;

/// The per-pixel subsample budget.
#[derive(Clone, Copy, Debug, PartialEq, Eq, Structural)]
pub enum SampleDepth {
    One,
    Four,
    Eight,
    Sixteen,
    ThirtyTwo,
    SixtyFour,
}

impl SampleDepth {
    /// The number of samples taken per pixel.
    pub open spec fn count_spec(self) -> int {
        match self {
            SampleDepth::One => 1,
            SampleDepth::Four => 4,
            SampleDepth::Eight => 8,
            SampleDepth::Sixteen => 16,
            SampleDepth::ThirtyTwo => 32,
            SampleDepth::SixtyFour => 64,
        }
    }

    pub fn count(&self) -> (r: u32)
        ensures
            r == self.count_spec(),
    {
        match self {
            SampleDepth::One => 1,
            SampleDepth::Four => 4,
            SampleDepth::Eight => 8,
            SampleDepth::Sixteen => 16,
            SampleDepth::ThirtyTwo => 32,
            SampleDepth::SixtyFour => 64,
        }
    }
}

/// How many of the segments from `si` on the ray from `(sx, sy)` toward
/// `+x` crosses: a segment counts when the sampler solves its crossing of
/// the sample row at or to the right of the sample point, so a sample
/// exactly on a segment counts as inside. A sample row through a shared
/// endpoint of two segments lies in both segments' extents and counts both,
/// which can flip that one sample's parity; the sample rows sit at odd
/// multiples of half the grid stride to keep them off the pixel grid itself.
pub open spec fn ray_crossings(segments: Seq<Segment>, sx: int, sy: int, si: int) -> int
    decreases segments.len() - si,
{
    if si < 0 || si >= segments.len() {
        0
    } else {
        (match sample_axis_spec(segments[si], true, sy) {
            Option::Some(it) => if it.axis >= sx {
                1int
            } else {
                0int
            },
            Option::None => 0int,
        }) + ray_crossings(segments, sx, sy, si + 1)
    }
}

/// The even-odd rule at one sample point: inside iff the ray crossing count
/// is odd.
pub open spec fn sample_inside(segments: Seq<Segment>, sx: int, sy: int) -> bool {
    ray_crossings(segments, sx, sy, 0) % 2 == 1
}

/// The subsample grid of a depth: columns, rows, and the half-cell strides
/// placing each sample at a cell center.
pub open spec fn grid_of(depth: SampleDepth) -> (int, int, int, int) {
    match depth {
        SampleDepth::One => (1, 1, 32768, 32768),
        SampleDepth::Four => (2, 2, 16384, 16384),
        SampleDepth::Eight => (2, 4, 16384, 8192),
        SampleDepth::Sixteen => (4, 4, 8192, 8192),
        SampleDepth::ThirtyTwo => (4, 8, 8192, 4096),
        SampleDepth::SixtyFour => (8, 8, 4096, 4096),
    }
}

/// Interior samples of grid row `iy`, from column `ix` on.
pub open spec fn row_covered(
    segments: Seq<Segment>,
    px: int,
    py: int,
    stx: int,
    sty: int,
    gx: int,
    iy: int,
    ix: int,
) -> int
    decreases gx - ix,
{
    if ix < 0 || ix >= gx {
        0
    } else {
        (if sample_inside(
            segments,
            px * SCALE + (2 * ix + 1) * stx,
            py * SCALE + (2 * iy + 1) * sty,
        ) {
            1int
        } else {
            0int
        }) + row_covered(segments, px, py, stx, sty, gx, iy, ix + 1)
    }
}

/// Interior samples of the grid rows from `iy` on.
pub open spec fn grid_covered(
    segments: Seq<Segment>,
    px: int,
    py: int,
    stx: int,
    sty: int,
    gx: int,
    gy: int,
    iy: int,
) -> int
    decreases gy - iy,
{
    if iy < 0 || iy >= gy {
        0
    } else {
        row_covered(segments, px, py, stx, sty, gx, iy, 0) + grid_covered(
            segments,
            px,
            py,
            stx,
            sty,
            gx,
            gy,
            iy + 1,
        )
    }
}

/// The exact number of interior subsamples of pixel `(px, py)` at a depth:
/// the value [`coverage`] computes.
pub open spec fn coverage_count(segments: Seq<Segment>, px: int, py: int, depth: SampleDepth) -> int {
    let (gx, gy, stx, sty) = grid_of(depth);
    grid_covered(segments, px, py, stx, sty, gx, gy, 0)
}

/// An exact coverage fraction `covered / samples`, always within `[0, 1]`.
#[derive(Clone, Copy, Debug, PartialEq, Eq, Structural)]
pub struct Coverage {
    pub covered: u32,
    pub samples: u32,
}

/// Computes how much of the pixel `(px, py)` lies inside the region bounded
/// by `segments`, by even-odd ray casting at `depth` subsamples: exactly
/// [`coverage_count`] interior samples out of `samples == depth`, so the
/// fraction always lies in `[0, 1]` and is zero without segments.
pub fn coverage(px: i64, py: i64, depth: SampleDepth, segments: &Vec<Segment>) -> (c: Coverage)
    requires
        in_pixel(px as int),
        in_pixel(py as int),
        forall|i: int| 0 <= i < segments@.len() ==> (#[trigger] segments@[i]).in_range(),
    ensures
        c.samples == depth.count_spec(),
        c.covered <= c.samples,
        c.covered == coverage_count(segments@, px as int, py as int, depth),
        segments@.len() == 0 ==> c.covered == 0,
{
    let (gx, gy, stx, sty): (u32, u32, i64, i64) = match depth {
        SampleDepth::One => (1, 1, 32768, 32768),
        SampleDepth::Four => (2, 2, 16384, 16384),
        SampleDepth::Eight => (2, 4, 16384, 8192),
        SampleDepth::Sixteen => (4, 4, 8192, 8192),
        SampleDepth::ThirtyTwo => (4, 8, 8192, 4096),
        SampleDepth::SixtyFour => (8, 8, 4096, 4096),
    };
    let total: u32 = depth.count();
    proof {
        assert(gx * gy == total);
        assert((gx as int, gy as int, stx as int, sty as int) == grid_of(depth));
    }
    let mut covered: u32 = 0;
    let mut sdone: u32 = 0;
    let mut iy: u32 = 0;
    while iy < gy
        invariant
            gx <= 8 && 1 <= gy <= 8,
            0 < stx <= 32768 && 0 < sty <= 32768,
            in_pixel(px as int),
            in_pixel(py as int),
            forall|i: int| 0 <= i < segments@.len() ==> (#[trigger] segments@[i]).in_range(),
            gx * gy == total,
            (gx as int, gy as int, stx as int, sty as int) == grid_of(depth),
            0 <= iy <= gy,
            sdone == iy * gx,
            covered <= sdone,
            segments@.len() == 0 ==> covered == 0,
            covered as int + grid_covered(
                segments@,
                px as int,
                py as int,
                stx as int,
                sty as int,
                gx as int,
                gy as int,
                iy as int,
            ) == coverage_count(segments@, px as int, py as int, depth),
        decreases gy - iy,
    {
        proof {
            assert(iy * gx <= 7 * 8) by (nonlinear_arith)
                requires
                    0 <= iy <= 7,
                    0 <= gx <= 8,
            ;
        }
        proof {
            assert(0 <= (2 * iy + 1) as int * sty as int <= 15 * 32768) by (nonlinear_arith)
                requires
                    0 <= (2 * iy + 1) as int <= 15,
                    0 < sty <= 32768,
            ;
        }
        let oy: i64 = (2 * iy + 1) as i64 * sty;
        let sy: i64 = py * SCALE + oy;
        let mut ix: u32 = 0;
        while ix < gx
            invariant
                gx <= 8 && 1 <= gy <= 8,
                0 < stx <= 32768 && 0 < sty <= 32768,
                in_pixel(px as int),
                in_pixel(py as int),
                forall|i: int| 0 <= i < segments@.len() ==> (#[trigger] segments@[i]).in_range(),
                iy < gy,
                0 <= ix <= gx,
                sdone == iy * gx + ix,
                sdone <= 7 * 8 + ix,
                covered <= sdone,
                segments@.len() == 0 ==> covered == 0,
                -0x8000_0000 - 0x80000 <= sy <= 0x8000_0000 + 0x80000,
                sy as int == py as int * SCALE + (2 * iy as int + 1) * sty as int,
                covered as int + row_covered(
                    segments@,
                    px as int,
                    py as int,
                    stx as int,
                    sty as int,
                    gx as int,
                    iy as int,
                    ix as int,
                ) + grid_covered(
                    segments@,
                    px as int,
                    py as int,
                    stx as int,
                    sty as int,
                    gx as int,
                    gy as int,
                    iy as int + 1,
                ) == coverage_count(segments@, px as int, py as int, depth),
            decreases gx - ix,
        {
            proof {
                assert(0 <= (2 * ix + 1) as int * stx as int <= 15 * 32768) by (nonlinear_arith)
                    requires
                        0 <= (2 * ix + 1) as int <= 15,
                        0 < stx <= 32768,
                ;
            }
            let ox: i64 = (2 * ix + 1) as i64 * stx;
            let sx: i64 = px * SCALE + ox;
            let mut crossings: u64 = 0;
            let mut si: usize = 0;
            while si < segments.len()
                invariant
                    forall|i: int|
                        0 <= i < segments@.len() ==> (#[trigger] segments@[i]).in_range(),
                    0 <= si <= segments@.len(),
                    crossings <= si,
                    -0x8000_0000 - 0x80000 <= sy <= 0x8000_0000 + 0x80000,
                    crossings as int + ray_crossings(segments@, sx as int, sy as int, si as int)
                        == ray_crossings(segments@, sx as int, sy as int, 0),
                decreases segments@.len() - si,
            {
                if let Some(it) = segments[si].sample_y(sy) {
                    if it.axis >= sx {
                        crossings = crossings + 1;
                    }
                }
                si = si + 1;
            }
            proof {
                assert(crossings as int == ray_crossings(segments@, sx as int, sy as int, 0));
                assert((crossings % 2 == 1) == sample_inside(segments@, sx as int, sy as int));
                assert(sx as int == px as int * SCALE + (2 * ix as int + 1) * stx as int);
                assert(row_covered(
                    segments@,
                    px as int,
                    py as int,
                    stx as int,
                    sty as int,
                    gx as int,
                    iy as int,
                    ix as int,
                ) == (if sample_inside(segments@, sx as int, sy as int) {
                    1int
                } else {
                    0int
                }) + row_covered(
                    segments@,
                    px as int,
                    py as int,
                    stx as int,
                    sty as int,
                    gx as int,
                    iy as int,
                    ix as int + 1,
                ));
            }
            if crossings % 2 == 1 {
                covered = covered + 1;
            }
            sdone = sdone + 1;
            ix = ix + 1;
        }
        proof {
            assert((iy + 1) * gx == iy * gx + gx) by (nonlinear_arith);
        }
        iy = iy + 1;
    }
    proof {
        assert(sdone == gy * gx);
        assert(gy * gx == gx * gy) by (nonlinear_arith);
    }
    Coverage { covered, samples: total }
}

} // verus!
