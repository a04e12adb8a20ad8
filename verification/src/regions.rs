//! Raster region search and enumeration: the hit set a segment list builds
//! and the scanline walk over it, which emits boundary pixels and interior
//! spans. Both are reflected in spec — [`hit_model`] is the exact hit set
//! [`RegionList::from`] builds, and [`walk`] is the exact region sequence
//! the walk emits — so the whole pixel-level output is pinned by contract.

use vstd::prelude::*;

verus! {

use vstd::arithmetic::div_mod::lemma_fundamental_div_mod;
use crate::fixed::SCALE;
use crate::fixed::V2;
use crate::fixed::fdiv;
use crate::fixed::floor_px;
use crate::fixed::in_coord;
use crate::fixed::min_max;
use crate::fixed::pixel_of;
use crate::grid_lines::GridLinesIter;
use crate::grid_lines::first_interior;
use crate::grid_lines::last_interior;
use crate::monotonics::Segment;
use crate::monotonics::T_ONE;
use crate::monotonics::sample_axis_spec;
use crate::monotonics::seg_bounds;

/// A pixel index reachable by flooring an in-range coordinate.
pub open spec fn in_pixel(p: int) -> bool {
    -0x8000 <= p <= 0x8000
}

/// A pixel-level crossing event: some segment passes through pixel `(x, y)`
/// over the vertical extent `y_start..y_end` (subpixel units).
#[derive(Clone, Copy, Debug, PartialEq, Eq, Structural)]
pub struct Hit {
    pub x: i64,
    pub y: i64,
    pub y_start: i64,
    pub y_end: i64,
    pub segment_id: usize,
}

impl Hit {
    /// Pixel indices within range, and a well-ordered vertical extent.
    pub open spec fn wf(self) -> bool {
        in_pixel(self.x as int) && in_pixel(self.y as int) && self.y_start <= self.y_end
            && in_coord(self.y_start as int) && in_coord(self.y_end as int)
    }
}

/// The hit's row is the pixel row of the midpoint of its vertical extent,
/// as the hit enumerator builds it.
pub open spec fn hit_consistent(h: Hit) -> bool {
    h.y == pixel_of((h.y_start + h.y_end) / 2)
}

/// Scanline order on hits: by row, then by column.
pub open spec fn hit_lt(a: Hit, b: Hit) -> bool {
    a.y < b.y || (a.y == b.y && a.x < b.x)
}

/// Strictly ascending in scanline order; in particular pixels are distinct.
pub open spec fn hits_sorted(s: Seq<Hit>) -> bool {
    forall|i: int, j: int| 0 <= i < j < s.len() ==> hit_lt(#[trigger] s[i], #[trigger] s[j])
}

pub open spec fn hits_wf(s: Seq<Hit>) -> bool {
    forall|i: int| 0 <= i < s.len() ==> (#[trigger] s[i]).wf()
}

/// A shaded region of one row.
#[derive(Clone, Copy, Debug, PartialEq, Eq, Structural)]
pub enum Region {
    /// A single pixel touched by a segment.
    Boundary { x: i64, y: i64 },
    /// A half-open run `start_x..end_x` of fully interior pixels.
    Span { start_x: i64, end_x: i64, y: i64 },
}

/// Whether at least one fully interior pixel separates two hits of one row.
pub open spec fn is_gap(lh: Hit, h: Hit) -> bool {
    lh.x - h.x > 1 || h.x - lh.x > 1
}

/// Membership in the half-open vertical extent `lo..hi`.
pub open spec fn yr_contains(lo: int, hi: int, v: int) -> bool {
    lo <= v < hi
}

/// Whether `h` opens a boundary edge distinct from the one `last` belongs to:
/// it comes from a different segment and the two vertical extents overlap
/// (their half-open ranges share a point, tested one subpixel unit inside the
/// upper ends), or a gap separates the hits.
pub open spec fn is_new_edge(last: Option<Hit>, h: Hit) -> bool {
    match last {
        Option::None => true,
        Option::Some(lh) => lh.segment_id != h.segment_id && (is_gap(lh, h) || yr_contains(
            lh.y_start as int,
            lh.y_end as int,
            h.y_start as int,
        ) || yr_contains(lh.y_start as int, lh.y_end as int, h.y_end - 1) || yr_contains(
            h.y_start as int,
            h.y_end as int,
            lh.y_start as int,
        ) || yr_contains(h.y_start as int, h.y_end as int, lh.y_end - 1)),
    }
}

/// The regions one hit emits: its boundary pixel, then — when the hit closed
/// an edge over a gap with even winding — the interior span between the two
/// boundary pixels.
pub open spec fn step_emit(last: Option<Hit>, ne: bool, w1: int, h: Hit) -> Seq<Region> {
    let b = seq![Region::Boundary { x: h.x, y: h.y }];
    match last {
        Option::None => b,
        Option::Some(lh) => if ne && is_gap(lh, h) && w1 % 2 == 0 {
            b.push(Region::Span { start_x: (lh.x + 1) as i64, end_x: h.x, y: h.y })
        } else {
            b
        },
    }
}

/// The scanline walk from hit `i` onward, in state `(y, last, w)`: current
/// row, previous hit of the row, and the row's even-odd winding counter.
pub open spec fn walk_from(hits: Seq<Hit>, i: int, y: int, last: Option<Hit>, w: int) -> Seq<
    Region,
>
    decreases hits.len() - i,
{
    if i < 0 || i >= hits.len() {
        Seq::empty()
    } else {
        let h = hits[i];
        let last0 = if h.y != y {
            Option::<Hit>::None
        } else {
            last
        };
        let w0: int = if h.y != y {
            0
        } else {
            w
        };
        let ne = is_new_edge(last0, h);
        let w1: int = if ne {
            w0 + 1
        } else {
            w0
        };
        step_emit(last0, ne, w1, h) + walk_from(hits, i + 1, h.y as int, Option::Some(h), w1)
    }
}

/// The full scanline walk over a hit sequence.
pub open spec fn walk(hits: Seq<Hit>) -> Seq<Region> {
    walk_from(hits, 0, 0, Option::None, 0)
}

/// Runs the scanline walk over a sorted hit list.
pub fn walk_hits(hits: &Vec<Hit>) -> (r: Vec<Region>)
    requires
        hits_wf(hits@),
    ensures
        r@ == walk(hits@),
{
    let mut out: Vec<Region> = Vec::new();
    let mut y: i64 = 0;
    let mut last: Option<Hit> = None;
    let mut w: u64 = 0;
    let mut i: usize = 0;
    while i < hits.len()
        invariant
            hits_wf(hits@),
            0 <= i <= hits@.len(),
            w <= i,
            out@ + walk_from(hits@, i as int, y as int, last, w as int) == walk(hits@),
            match last {
                Option::Some(lh) => lh.wf(),
                Option::None => true,
            },
        decreases hits@.len() - i,
    {
        let h = hits[i];
        let last0: Option<Hit> = if h.y != y {
            None
        } else {
            last
        };
        let w0: u64 = if h.y != y {
            0
        } else {
            w
        };
        let ne: bool = match &last0 {
            None => true,
            Some(lh) => lh.segment_id != h.segment_id && ((lh.x - h.x > 1 || h.x - lh.x > 1) || (
            lh.y_start <= h.y_start && h.y_start < lh.y_end) || (lh.y_start <= h.y_end - 1
                && h.y_end - 1 < lh.y_end) || (h.y_start <= lh.y_start && lh.y_start < h.y_end) || (
            h.y_start <= lh.y_end - 1 && lh.y_end - 1 < h.y_end)),
        };
        let w1: u64 = if ne {
            w0 + 1
        } else {
            w0
        };
        proof {
            assert(ne == is_new_edge(last0, h));
        }
        out.push(Region::Boundary { x: h.x, y: h.y });
        match &last0 {
            Some(lh) => {
                if ne && (lh.x - h.x > 1 || h.x - lh.x > 1) && w1 % 2 == 0 {
                    out.push(Region::Span { start_x: lh.x + 1, end_x: h.x, y: h.y });
                }
            },
            None => {},
        }
        proof {
            assert(walk_from(hits@, i as int, y as int, last, w as int) == step_emit(
                last0,
                ne,
                w1 as int,
                h,
            ) + walk_from(hits@, i + 1, h.y as int, Option::Some(h), w1 as int));
        }
        y = h.y;
        last = Some(h);
        w = w1;
        i = i + 1;
    }
    out
}

/// A boundary region's pixel lies within the pixel range (vacuous for spans).
pub open spec fn boundary_in_pixel(r: Region) -> bool {
    match r {
        Region::Boundary { x, y } => in_pixel(x as int) && in_pixel(y as int),
        Region::Span { .. } => true,
    }
}

proof fn lemma_walk_from_boundaries(hits: Seq<Hit>, i: int, y: int, last: Option<Hit>, w: int)
    requires
        hits_wf(hits),
    ensures
        forall|k: int|
            0 <= k < walk_from(hits, i, y, last, w).len() ==> boundary_in_pixel(
                #[trigger] walk_from(hits, i, y, last, w)[k],
            ),
    decreases hits.len() - i,
{
    if i < 0 || i >= hits.len() {
    } else {
        let h = hits[i];
        let last0 = if h.y != y {
            Option::<Hit>::None
        } else {
            last
        };
        let w0: int = if h.y != y {
            0
        } else {
            w
        };
        let ne = is_new_edge(last0, h);
        let w1: int = if ne {
            w0 + 1
        } else {
            w0
        };
        lemma_walk_from_boundaries(hits, i + 1, h.y as int, Option::Some(h), w1);
        let emit = step_emit(last0, ne, w1, h);
        let rest = walk_from(hits, i + 1, h.y as int, Option::Some(h), w1);
        assert(walk_from(hits, i, y, last, w) == emit + rest);
        assert(h.wf());
        assert forall|k: int|
            0 <= k < walk_from(hits, i, y, last, w).len() implies boundary_in_pixel(
            #[trigger] walk_from(hits, i, y, last, w)[k],
        ) by {
            if k < emit.len() {
                assert(walk_from(hits, i, y, last, w)[k] == emit[k]);
            } else {
                assert(walk_from(hits, i, y, last, w)[k] == rest[k - emit.len()]);
            }
        }
    }
}

/// Every boundary region the walk emits names a pixel within the supported
/// pixel range.
pub proof fn lemma_walk_boundaries(hits: Seq<Hit>)
    requires
        hits_wf(hits),
    ensures
        forall|k: int|
            0 <= k < walk(hits).len() ==> boundary_in_pixel(#[trigger] walk(hits)[k]),
{
    lemma_walk_from_boundaries(hits, 0, 0, Option::None, 0);
}

/// A point where a segment meets a grid line or ends, with its parameter.
#[derive(Clone, Copy, Debug, PartialEq, Eq, Structural)]
pub struct RawHit {
    pub pos: V2,
    pub t: i64,
}

impl RawHit {
    pub open spec fn wf(self) -> bool {
        self.pos.in_range() && 0 <= self.t <= T_ONE
    }
}

pub open spec fn raws_sorted(s: Seq<RawHit>) -> bool {
    forall|i: int, j: int| 0 <= i < j < s.len() ==> (#[trigger] s[i]).t < (#[trigger] s[j]).t
}

pub open spec fn raws_wf(s: Seq<RawHit>) -> bool {
    forall|i: int| 0 <= i < s.len() ==> (#[trigger] s[i]).wf()
}

/// Index at which the parameter-ordered scan stops: the first position at or
/// after `i` whose raw hit's parameter is not below `t`.
pub open spec fn raw_pos(s: Seq<RawHit>, t: int, i: int) -> int
    decreases s.len() - i,
{
    if i >= s.len() {
        i
    } else if s[i].t < t {
        raw_pos(s, t, i + 1)
    } else {
        i
    }
}

/// The raw-hit set after offering `rh`: inserted in parameter order, or left
/// alone when a raw hit with the same parameter is already present.
pub open spec fn raw_inserted(s: Seq<RawHit>, rh: RawHit) -> Seq<RawHit> {
    let k = raw_pos(s, rh.t as int, 0);
    if k < s.len() && s[k].t == rh.t {
        s
    } else {
        s.insert(k, rh)
    }
}

/// Index at which the scanline-ordered scan stops: the first position at or
/// after `i` whose hit is not below `h` in `(y, x)` order.
pub open spec fn hit_pos(s: Seq<Hit>, h: Hit, i: int) -> int
    decreases s.len() - i,
{
    if i >= s.len() {
        i
    } else if hit_lt(s[i], h) {
        hit_pos(s, h, i + 1)
    } else {
        i
    }
}

/// The hit set after offering `h`: inserted in scanline order, or dropped
/// when its pixel is already occupied (first arrival keeps the pixel).
pub open spec fn hit_inserted(s: Seq<Hit>, h: Hit) -> Seq<Hit> {
    let k = hit_pos(s, h, 0);
    if k < s.len() && s[k].y == h.y && s[k].x == h.x {
        s
    } else {
        s.insert(k, h)
    }
}

/// The hit a consecutive raw-hit pair forms: the pixel containing the pair's
/// midpoint, the pair's vertical extent, and the segment's identifier.
pub open spec fn mk_hit(a: RawHit, b: RawHit, sid: usize) -> Hit {
    Hit {
        x: pixel_of((a.pos.x + b.pos.x) / 2) as i64,
        y: pixel_of((a.pos.y + b.pos.y) / 2) as i64,
        y_start: vstd::math::min(a.pos.y as int, b.pos.y as int) as i64,
        y_end: vstd::math::max(a.pos.y as int, b.pos.y as int) as i64,
        segment_id: sid,
    }
}

/// The hits of every consecutive raw-hit pair from position `k` on.
pub open spec fn pair_hits(raws: Seq<RawHit>, sid: usize, k: int) -> Seq<Hit>
    decreases raws.len() - k,
{
    if k < 0 || k + 1 >= raws.len() {
        Seq::empty()
    } else {
        seq![mk_hit(raws[k], raws[k + 1], sid)] + pair_hits(raws, sid, k + 1)
    }
}

/// The raw-hit set after sampling one grid line: a crossing, if the sampler
/// finds one, joins the set in parameter order.
pub open spec fn with_crossing(seg: Segment, raws: Seq<RawHit>, yaxis: bool, line: int) -> Seq<
    RawHit,
> {
    match sample_axis_spec(seg, yaxis, line * SCALE) {
        Option::Some(it) => raw_inserted(
            raws,
            RawHit {
                pos: if yaxis {
                    V2 { x: it.axis, y: (line * SCALE) as i64 }
                } else {
                    V2 { x: (line * SCALE) as i64, y: it.axis }
                },
                t: it.t,
            },
        ),
        Option::None => raws,
    }
}

/// The raw-hit set after sampling `cnt` consecutive grid lines from `line`.
pub open spec fn collect_crossings(
    seg: Segment,
    raws: Seq<RawHit>,
    yaxis: bool,
    line: int,
    cnt: int,
) -> Seq<RawHit>
    decreases cnt,
{
    if cnt <= 0 {
        raws
    } else {
        collect_crossings(seg, with_crossing(seg, raws, yaxis, line), yaxis, line + 1, cnt - 1)
    }
}

/// How many integer grid lines lie strictly between `a` and `b`.
pub open spec fn line_count(a: int, b: int) -> int {
    if last_interior(b) >= first_interior(a) {
        last_interior(b) - first_interior(a) + 1
    } else {
        0
    }
}

/// One segment's raw hits: both endpoints, then one crossing per interior
/// horizontal grid line, then one per interior vertical grid line, kept in
/// parameter order with equal parameters collapsed.
pub open spec fn seg_raws(s: Segment) -> Seq<RawHit> {
    let b = seg_bounds(s);
    let r0 = seq![
        RawHit { pos: s.start(), t: 0 },
        RawHit { pos: s.end(), t: T_ONE },
    ];
    let r1 = collect_crossings(
        s,
        r0,
        true,
        first_interior(b.min.y as int),
        line_count(b.min.y as int, b.max.y as int),
    );
    collect_crossings(
        s,
        r1,
        false,
        first_interior(b.min.x as int),
        line_count(b.min.x as int, b.max.x as int),
    )
}

/// One segment's hit candidates: the consecutive-pair hits of its raw set.
pub open spec fn seg_hit_model(s: Segment, sid: usize) -> Seq<Hit> {
    pair_hits(seg_raws(s), sid, 0)
}

/// The global hit set after offering every candidate of `cands` from `ci` on.
pub open spec fn insert_all(hits: Seq<Hit>, cands: Seq<Hit>, ci: int) -> Seq<Hit>
    decreases cands.len() - ci,
{
    if ci < 0 || ci >= cands.len() {
        hits
    } else {
        insert_all(hit_inserted(hits, cands[ci]), cands, ci + 1)
    }
}

/// The global hit set after processing every segment from `sid` on.
pub open spec fn hits_from_segments(segments: Seq<Segment>, hits: Seq<Hit>, sid: int) -> Seq<Hit>
    decreases segments.len() - sid,
{
    if sid < 0 || sid >= segments.len() {
        hits
    } else {
        hits_from_segments(
            segments,
            insert_all(hits, seg_hit_model(segments[sid], sid as usize), 0),
            sid + 1,
        )
    }
}

/// The hit set of a segment list: endpoints and grid-line crossings of each
/// segment in order, paired into pixel hits, merged in scanline order with
/// first-arrival pixel deduplication.
pub open spec fn hit_model(segments: Seq<Segment>) -> Seq<Hit> {
    hits_from_segments(segments, Seq::empty(), 0)
}

/// Inserts a raw hit in parameter order; a raw hit with the same parameter is
/// already the same crossing, so the earlier one is kept.
fn insert_raw(v: &mut Vec<RawHit>, rh: RawHit)
    requires
        raws_sorted(old(v)@),
        raws_wf(old(v)@),
        rh.wf(),
    ensures
        raws_sorted(final(v)@),
        raws_wf(final(v)@),
        final(v)@.len() >= old(v)@.len(),
        final(v)@ == raw_inserted(old(v)@, rh),
{
    let ghost s0 = v@;
    let mut k: usize = 0;
    while k < v.len() && v[k].t < rh.t
        invariant
            0 <= k <= v@.len(),
            v@ == s0,
            raws_sorted(s0),
            forall|j: int| 0 <= j < k ==> (#[trigger] s0[j]).t < rh.t,
            raw_pos(s0, rh.t as int, 0) == raw_pos(s0, rh.t as int, k as int),
        decreases v@.len() - k,
    {
        k = k + 1;
    }
    proof {
        assert(raw_pos(s0, rh.t as int, k as int) == k);
        assert(raw_pos(s0, rh.t as int, 0) == k);
    }
    if k < v.len() {
        if v[k].t == rh.t {
            proof {
                assert(raw_inserted(s0, rh) == s0);
            }
            return ;
        }
    }
    v.insert(k, rh);
    proof {
        assert(v@ == raw_inserted(s0, rh));
        assert forall|a: int, b: int| 0 <= a < b < v@.len() implies (#[trigger] v@[a]).t < (
        #[trigger] v@[b]).t by {
            if b < k {
                assert(v@[a] == s0[a] && v@[b] == s0[b]);
            } else if a < k && b == k {
                assert(v@[a] == s0[a] && v@[b] == rh);
            } else if a < k && b > k {
                assert(v@[a] == s0[a] && v@[b] == s0[b - 1]);
                assert(s0[b - 1].t >= s0[k as int].t);
            } else if a == k {
                assert(v@[a] == rh && v@[b] == s0[b - 1]);
                assert(s0[b - 1].t >= s0[k as int].t);
                assert(s0[k as int].t > rh.t);
            } else {
                assert(v@[a] == s0[a - 1] && v@[b] == s0[b - 1]);
            }
        }
        assert forall|a: int| 0 <= a < v@.len() implies (#[trigger] v@[a]).wf() by {
            if a < k {
                assert(v@[a] == s0[a]);
            } else if a == k {
                assert(v@[a] == rh);
            } else {
                assert(v@[a] == s0[a - 1]);
            }
        }
    }
}

/// Inserts a hit in scanline order. A hit at an already-occupied pixel is
/// dropped: the hit set deduplicates by pixel, keeping the first arrival.
fn insert_hit(v: &mut Vec<Hit>, h: Hit)
    requires
        hits_sorted(old(v)@),
        hits_wf(old(v)@),
        h.wf(),
    ensures
        hits_sorted(final(v)@),
        hits_wf(final(v)@),
        final(v)@.len() >= old(v)@.len(),
        final(v)@.len() >= 1,
        forall|a: int|
            0 <= a < final(v)@.len() ==> (final(v)@[a] == h || old(v)@.contains(
                #[trigger] final(v)@[a],
            )),
        final(v)@ == hit_inserted(old(v)@, h),
{
    let ghost s0 = v@;
    let mut k: usize = 0;
    while k < v.len() && (v[k].y < h.y || (v[k].y == h.y && v[k].x < h.x))
        invariant
            0 <= k <= v@.len(),
            v@ == s0,
            hits_sorted(s0),
            forall|j: int| 0 <= j < k ==> hit_lt(#[trigger] s0[j], h),
            hit_pos(s0, h, 0) == hit_pos(s0, h, k as int),
        decreases v@.len() - k,
    {
        k = k + 1;
    }
    proof {
        assert(hit_pos(s0, h, k as int) == k);
        assert(hit_pos(s0, h, 0) == k);
    }
    if k < v.len() {
        if v[k].y == h.y && v[k].x == h.x {
            proof {
                assert(hit_inserted(s0, h) == s0);
                assert forall|a: int| 0 <= a < v@.len() implies (v@[a] == h || s0.contains(
                    #[trigger] v@[a],
                )) by {
                    assert(v@[a] == s0[a]);
                }
            }
            return ;
        }
    }
    v.insert(k, h);
    proof {
        assert(v@ == hit_inserted(s0, h));
        assert forall|a: int, b: int| 0 <= a < b < v@.len() implies hit_lt(
            #[trigger] v@[a],
            #[trigger] v@[b],
        ) by {
            if b < k {
                assert(v@[a] == s0[a] && v@[b] == s0[b]);
            } else if a < k && b == k {
                assert(v@[a] == s0[a] && v@[b] == h);
            } else if a < k && b > k {
                assert(v@[a] == s0[a] && v@[b] == s0[b - 1]);
                if b - 1 > k {
                    assert(hit_lt(s0[k as int], s0[b - 1]));
                }
            } else if a == k {
                assert(v@[a] == h && v@[b] == s0[b - 1]);
                assert(!hit_lt(s0[k as int], h) && !(s0[k as int].y == h.y && s0[k as int].x
                    == h.x));
                if b - 1 > k {
                    assert(hit_lt(s0[k as int], s0[b - 1]));
                }
            } else {
                assert(v@[a] == s0[a - 1] && v@[b] == s0[b - 1]);
            }
        }
        assert forall|a: int| 0 <= a < v@.len() implies (#[trigger] v@[a]).wf() by {
            if a < k {
                assert(v@[a] == s0[a]);
            } else if a == k {
                assert(v@[a] == h);
            } else {
                assert(v@[a] == s0[a - 1]);
            }
        }
        assert forall|a: int| 0 <= a < v@.len() implies (v@[a] == h || s0.contains(
            #[trigger] v@[a],
        )) by {
            if a < k {
                assert(v@[a] == s0[a]);
            } else if a > k {
                assert(v@[a] == s0[a - 1]);
            }
        }
    }
}

/// Collects one segment's hits: the endpoints and every grid-line crossing
/// become raw hits in parameter order, and each consecutive pair becomes a
/// hit at the pixel containing the pair's midpoint, with the pair's vertical
/// extent. Every segment yields at least one hit candidate.
fn segment_hits(seg: &Segment, segment_id: usize) -> (r: Vec<Hit>)
    requires
        seg.in_range(),
    ensures
        hits_wf(r@),
        r@.len() >= 1,
        forall|j: int|
            0 <= j < r@.len() ==> (hit_consistent(#[trigger] r@[j]) && r@[j].segment_id
                == segment_id),
        r@ == seg_hit_model(*seg, segment_id),
{
    let bounds = seg.bounds();
    let iter = GridLinesIter::new(bounds);
    let (sp, ep) = seg.bookends();
    let mut raws: Vec<RawHit> = Vec::new();
    raws.push(RawHit { pos: sp, t: 0 });
    raws.push(RawHit { pos: ep, t: T_ONE });
    let ghost r0 = raws@;
    proof {
        assert(raws@[0].t == 0 && raws@[1].t == T_ONE);
        assert(raws_sorted(raws@));
        assert(raws_wf(raws@));
        assert(r0 =~= seq![
            RawHit { pos: seg.start(), t: 0 },
            RawHit { pos: seg.end(), t: T_ONE },
        ]);
    }
    proof {
        lemma_fundamental_div_mod(bounds.min.y as int, SCALE as int);
        lemma_fundamental_div_mod(bounds.max.y as int, SCALE as int);
        lemma_fundamental_div_mod(bounds.min.x as int, SCALE as int);
        lemma_fundamental_div_mod(bounds.max.x as int, SCALE as int);
    }
    let ghost fy = first_interior(bounds.min.y as int);
    let ghost cy = line_count(bounds.min.y as int, bounds.max.y as int);
    let hs = iter.horizontal();
    proof {
        assert(hs@.len() == cy);
    }
    let mut li: usize = 0;
    while li < hs.len()
        invariant
            seg.in_range(),
            raws_sorted(raws@),
            raws_wf(raws@),
            raws@.len() >= 2,
            hs@.len() > 0 ==> -0x8000 <= first_interior(bounds.min.y as int)
                <= last_interior(bounds.max.y as int) <= 0x8000,
            forall|j: int| 0 <= j < hs@.len() ==> hs@[j] == first_interior(bounds.min.y as int) + j,
            hs@.len() > 0 ==> hs@[hs@.len() - 1] == last_interior(bounds.max.y as int),
            fy == first_interior(bounds.min.y as int),
            hs@.len() == cy,
            0 <= li <= hs@.len(),
            collect_crossings(*seg, raws@, true, fy + li, cy - li) == collect_crossings(
                *seg,
                r0,
                true,
                fy,
                cy,
            ),
        decreases hs@.len() - li,
    {
        let yv: i64 = hs[li] * SCALE;
        let ghost rb = raws@;
        let ghost line = fy + li as int;
        if let Some(it) = seg.sample_y(yv) {
            insert_raw(&mut raws, RawHit { pos: V2 { x: it.axis, y: yv }, t: it.t });
        }
        proof {
            assert(yv as int == line * SCALE);
            assert((line * SCALE) as i64 == yv);
            assert(raws@ == with_crossing(*seg, rb, true, line));
            assert(collect_crossings(*seg, rb, true, line, cy - li) == collect_crossings(
                *seg,
                raws@,
                true,
                line + 1,
                cy - li - 1,
            ));
        }
        li = li + 1;
    }
    let ghost rh = raws@;
    proof {
        assert(rh == collect_crossings(*seg, r0, true, fy, cy));
    }
    let ghost fx = first_interior(bounds.min.x as int);
    let ghost cx = line_count(bounds.min.x as int, bounds.max.x as int);
    let vs = iter.vertical();
    proof {
        assert(vs@.len() == cx);
    }
    let mut vi: usize = 0;
    while vi < vs.len()
        invariant
            seg.in_range(),
            raws_sorted(raws@),
            raws_wf(raws@),
            raws@.len() >= 2,
            vs@.len() > 0 ==> -0x8000 <= first_interior(bounds.min.x as int)
                <= last_interior(bounds.max.x as int) <= 0x8000,
            forall|j: int| 0 <= j < vs@.len() ==> vs@[j] == first_interior(bounds.min.x as int) + j,
            vs@.len() > 0 ==> vs@[vs@.len() - 1] == last_interior(bounds.max.x as int),
            fx == first_interior(bounds.min.x as int),
            vs@.len() == cx,
            0 <= vi <= vs@.len(),
            collect_crossings(*seg, raws@, false, fx + vi, cx - vi) == collect_crossings(
                *seg,
                rh,
                false,
                fx,
                cx,
            ),
        decreases vs@.len() - vi,
    {
        let xv: i64 = vs[vi] * SCALE;
        let ghost rb = raws@;
        let ghost line = fx + vi as int;
        if let Some(it) = seg.sample_x(xv) {
            insert_raw(&mut raws, RawHit { pos: V2 { x: xv, y: it.axis }, t: it.t });
        }
        proof {
            assert(xv as int == line * SCALE);
            assert((line * SCALE) as i64 == xv);
            assert(raws@ == with_crossing(*seg, rb, false, line));
            assert(collect_crossings(*seg, rb, false, line, cx - vi) == collect_crossings(
                *seg,
                raws@,
                false,
                line + 1,
                cx - vi - 1,
            ));
        }
        vi = vi + 1;
    }
    proof {
        assert(bounds == seg_bounds(*seg));
        assert(raws@ == collect_crossings(*seg, rh, false, fx, cx));
        assert(raws@ == seg_raws(*seg));
    }
    let mut out: Vec<Hit> = Vec::new();
    let mut k: usize = 0;
    let n: usize = raws.len() - 1;
    while k < n
        invariant
            raws_wf(raws@),
            raws@.len() >= 2,
            n == raws@.len() - 1,
            0 <= k <= n,
            out@.len() == k,
            hits_wf(out@),
            forall|j: int|
                0 <= j < out@.len() ==> (hit_consistent(#[trigger] out@[j]) && out@[j].segment_id
                    == segment_id),
            out@ + pair_hits(raws@, segment_id, k as int) == pair_hits(raws@, segment_id, 0),
        decreases n - k,
    {
        let a = raws[k];
        let b = raws[k + 1];
        let sx: i64 = a.pos.x + b.pos.x;
        let sy: i64 = a.pos.y + b.pos.y;
        proof {
            lemma_fundamental_div_mod(sx as int, 2);
            lemma_fundamental_div_mod(sy as int, 2);
        }
        let mx: i64 = fdiv(sx as i128, 2) as i64;
        let my: i64 = fdiv(sy as i128, 2) as i64;
        let px: i64 = floor_px(mx);
        let py: i64 = floor_px(my);
        let (ylo, yhi) = min_max(a.pos.y, b.pos.y);
        proof {
            assert(ylo + yhi == sy);
            assert(ylo as int == vstd::math::min(a.pos.y as int, b.pos.y as int));
            assert(yhi as int == vstd::math::max(a.pos.y as int, b.pos.y as int));
        }
        out.push(Hit { x: px, y: py, y_start: ylo, y_end: yhi, segment_id });
        proof {
            assert(out@.last() == mk_hit(raws@[k as int], raws@[k as int + 1], segment_id));
            assert(pair_hits(raws@, segment_id, k as int) == seq![
                mk_hit(raws@[k as int], raws@[k as int + 1], segment_id),
            ] + pair_hits(raws@, segment_id, k as int + 1));
        }
        k = k + 1;
    }
    proof {
        assert(out@ == pair_hits(raws@, segment_id, 0));
    }
    out
}

/// The hit set of a collection of monotone segments, ready for the scanline
/// walk, with the segments retained for coverage estimation.
#[derive(Debug)]
pub struct RegionList {
    pub hits: Vec<Hit>,
    pub segments: Vec<Segment>,
}

impl RegionList {
    /// The hit sequence, for contracts.
    pub open spec fn hit_seq(self) -> Seq<Hit> {
        self.hits@
    }

    /// The retained segments, for contracts.
    pub open spec fn seg_seq(self) -> Seq<Segment> {
        self.segments@
    }

    /// Sorted, well-formed hits over in-range segments.
    pub open spec fn wf(self) -> bool {
        hits_sorted(self.hits@) && hits_wf(self.hits@) && (forall|i: int|
            0 <= i < self.segments@.len() ==> (#[trigger] self.segments@[i]).in_range())
    }

    /// Builds the global hit set — exactly [`hit_model`] of the segments:
    /// every segment's endpoint and grid-crossing candidates, inserted in
    /// scanline order, deduplicated by pixel. A non-empty segment list always
    /// produces at least one hit.
    pub fn from(segments: Vec<Segment>) -> (r: RegionList)
        requires
            forall|i: int| 0 <= i < segments@.len() ==> (#[trigger] segments@[i]).in_range(),
        ensures
            r.wf(),
            r.seg_seq() == segments@,
            r.hit_seq() == hit_model(segments@),
            segments@.len() > 0 ==> r.hit_seq().len() >= 1,
            forall|k: int|
                0 <= k < r.hit_seq().len() ==> (hit_consistent(#[trigger] r.hit_seq()[k])
                    && r.hit_seq()[k].segment_id < segments@.len()),
    {
        let mut hits: Vec<Hit> = Vec::new();
        let mut segment_id: usize = 0;
        while segment_id < segments.len()
            invariant
                forall|i: int| 0 <= i < segments@.len() ==> (#[trigger] segments@[i]).in_range(),
                0 <= segment_id <= segments@.len(),
                hits_sorted(hits@),
                hits_wf(hits@),
                segment_id > 0 ==> hits@.len() >= 1,
                forall|k: int|
                    0 <= k < hits@.len() ==> (hit_consistent(#[trigger] hits@[k])
                        && hits@[k].segment_id < segments@.len()),
                hits_from_segments(segments@, hits@, segment_id as int) == hit_model(segments@),
            decreases segments@.len() - segment_id,
        {
            let cands = segment_hits(&segments[segment_id], segment_id);
            proof {
                assert(cands@ == seg_hit_model(segments@[segment_id as int], segment_id));
                assert(hits_from_segments(segments@, hits@, segment_id as int)
                    == hits_from_segments(
                    segments@,
                    insert_all(hits@, cands@, 0),
                    segment_id + 1,
                ));
            }
            let mut ci: usize = 0;
            while ci < cands.len()
                invariant
                    hits_wf(cands@),
                    cands@.len() >= 1,
                    0 <= ci <= cands@.len(),
                    hits_sorted(hits@),
                    hits_wf(hits@),
                    ci > 0 ==> hits@.len() >= 1,
                    segment_id < segments@.len(),
                    forall|j: int|
                        0 <= j < cands@.len() ==> (hit_consistent(#[trigger] cands@[j])
                            && cands@[j].segment_id == segment_id),
                    forall|k: int|
                        0 <= k < hits@.len() ==> (hit_consistent(#[trigger] hits@[k])
                            && hits@[k].segment_id < segments@.len()),
                    hits_from_segments(
                        segments@,
                        insert_all(hits@, cands@, ci as int),
                        segment_id + 1,
                    ) == hit_model(segments@),
                decreases cands@.len() - ci,
            {
                let ghost before = hits@;
                insert_hit(&mut hits, cands[ci]);
                proof {
                    assert(hits@ == hit_inserted(before, cands@[ci as int]));
                    assert(insert_all(before, cands@, ci as int) == insert_all(
                        hits@,
                        cands@,
                        ci as int + 1,
                    ));
                    assert forall|k: int|
                        0 <= k < hits@.len() implies (hit_consistent(#[trigger] hits@[k])
                            && hits@[k].segment_id < segments@.len()) by {
                        if hits@[k] != cands@[ci as int] {
                            assert(before.contains(hits@[k]));
                            let j = choose|j: int| 0 <= j < before.len() && before[j] == hits@[k];
                            assert(hit_consistent(before[j]));
                        }
                    }
                }
                ci = ci + 1;
            }
            proof {
                assert(insert_all(hits@, cands@, cands@.len() as int) == hits@);
            }
            segment_id = segment_id + 1;
        }
        proof {
            assert(hits_from_segments(segments@, hits@, segments@.len() as int) == hits@);
        }
        RegionList { hits, segments }
    }

    /// Runs the scanline walk over the hit set.
    pub fn regions(&self) -> (r: Vec<Region>)
        requires
            self.wf(),
        ensures
            r@ == walk(self.hit_seq()),
    {
        walk_hits(&self.hits)
    }
}

} // verus!
