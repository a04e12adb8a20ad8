//! The shade command stream: the public output of the region builder.

use vstd::prelude::*;

verus! {

use crate::regions::Region;
use crate::regions::RegionList;
use crate::regions::walk;
use crate::regions::walk_hits;
use crate::monotonics::Segment;
use crate::sampling::Coverage;
use crate::sampling::SampleDepth;
use crate::sampling::coverage;
use crate::sampling::coverage_count;

/// A command to shade part of one row of the framebuffer.
#[derive(Clone, Copy, Debug, PartialEq, Eq, Structural)]
pub enum ShadeCommand {
    /// Shade a pixel at the boundary of the raster area; `coverage` tells how
    /// much of the pixel the area overlaps, and usually maps to alpha.
    Boundary { x: i64, y: i64, coverage: Coverage },
    /// Shade the fully covered half-open run `start_x..end_x` of a row.
    Span { start_x: i64, end_x: i64, y: i64 },
}

/// The command `c` renders the region `r` at sample depth `depth` over
/// `segments`: spans are copied exactly, boundaries keep their pixel and
/// carry the estimator's exact coverage fraction, `coverage_count` interior
/// samples out of the depth's sample budget.
pub open spec fn cmd_matches(
    r: Region,
    c: ShadeCommand,
    segments: Seq<Segment>,
    depth: SampleDepth,
) -> bool {
    match (r, c) {
        (
            Region::Boundary { x, y },
            ShadeCommand::Boundary { x: cx, y: cy, coverage: cov },
        ) => cx == x && cy == y && cov.samples == depth.count_spec() && cov.covered <= cov.samples
            && cov.covered == coverage_count(segments, x as int, y as int, depth),
        (
            Region::Span { start_x, end_x, y },
            ShadeCommand::Span { start_x: cs, end_x: ce, y: cy },
        ) => cs == start_x && ce == end_x && cy == y,
        _ => false,
    }
}

/// Every region of `rs` is rendered, in order, by the command at the same
/// position of `cs`.
pub open spec fn commands_match(
    rs: Seq<Region>,
    cs: Seq<ShadeCommand>,
    segments: Seq<Segment>,
    depth: SampleDepth,
) -> bool {
    cs.len() == rs.len() && (forall|k: int|
        0 <= k < rs.len() ==> cmd_matches(#[trigger] rs[k], cs[k], segments, depth))
}

impl RegionList {
    /// Consumes the region list and produces the shade command stream: one
    /// command per walked region, in walk order, with boundary coverage
    /// estimated at `depth` samples per pixel.
    pub fn shade_commands(self, depth: SampleDepth) -> (r: Vec<ShadeCommand>)
        requires
            self.wf(),
        ensures
            commands_match(walk(self.hit_seq()), r@, self.seg_seq(), depth),
    {
        let regions = walk_hits(&self.hits);
        proof {
            crate::regions::lemma_walk_boundaries(self.hit_seq());
        }
        let segments = self.segments;
        let mut out: Vec<ShadeCommand> = Vec::new();
        let mut i: usize = 0;
        while i < regions.len()
            invariant
                regions@ == walk(self.hit_seq()),
                forall|k: int|
                    0 <= k < segments@.len() ==> (#[trigger] segments@[k]).in_range(),
                forall|k: int|
                    0 <= k < regions@.len() ==> crate::regions::boundary_in_pixel(
                        #[trigger] regions@[k],
                    ),
                0 <= i <= regions@.len(),
                out@.len() == i,
                segments@ == self.seg_seq(),
                forall|k: int|
                    0 <= k < i ==> cmd_matches(#[trigger] regions@[k], out@[k], segments@, depth),
            decreases regions@.len() - i,
        {
            let cmd: ShadeCommand = match regions[i] {
                Region::Boundary { x, y } => ShadeCommand::Boundary {
                    x,
                    y,
                    coverage: coverage(x, y, depth, &segments),
                },
                Region::Span { start_x, end_x, y } => ShadeCommand::Span { start_x, end_x, y },
            };
            out.push(cmd);
            i = i + 1;
        }
        out
    }
}

} // verus!
