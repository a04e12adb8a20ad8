//! Proved properties of the scanline walk: what the emitted regions look
//! like for every sorted, well-formed hit set.

use vstd::prelude::*;

verus! {

use crate::fixed::SCALE;
use crate::fixed::rdiv;
use crate::fixed::COORD_MAX;
use crate::fixed::V2;
use crate::fixed::in_coord;
use crate::monotonics::Intersection;
use crate::monotonics::Segment;
use crate::monotonics::T_ONE;
use crate::monotonics::axis_of;
use crate::monotonics::bisect_rec;
use crate::monotonics::bisect_spec;
use crate::monotonics::bracketed;
use crate::monotonics::cubic_num;
use crate::monotonics::lemma_poly_num_bound;
use crate::monotonics::lemma_rdiv_bound;
use crate::monotonics::line_num;
use crate::monotonics::poly_num;
use crate::monotonics::quad_num;
use crate::monotonics::sample_axis_spec;
use crate::regions::Hit;
use crate::regions::in_pixel;
use crate::regions::Region;
use crate::regions::hit_lt;
use crate::regions::hits_sorted;
use crate::regions::hits_wf;
use crate::regions::is_new_edge;
use crate::regions::step_emit;
use crate::regions::walk;
use crate::regions::walk_from;

/// The row a region shades.
pub open spec fn region_row(r: Region) -> int {
    match r {
        Region::Boundary { y, .. } => y as int,
        Region::Span { y, .. } => y as int,
    }
}

pub open spec fn region_is_span(r: Region) -> bool {
    match r {
        Region::Span { .. } => true,
        Region::Boundary { .. } => false,
    }
}

pub open spec fn region_is_boundary(r: Region) -> bool {
    match r {
        Region::Boundary { .. } => true,
        Region::Span { .. } => false,
    }
}

/// `r` is the span the walk emits between the adjacent same-row hits
/// `hits[j - 1]` and `hits[j]`, which are more than one pixel apart.
pub open spec fn span_from_pair(hits: Seq<Hit>, j: int, r: Region) -> bool {
    &&& 1 <= j < hits.len()
    &&& hits[j - 1].y == hits[j].y
    &&& hits[j].x - hits[j - 1].x > 1
    &&& r == (Region::Span { start_x: (hits[j - 1].x + 1) as i64, end_x: hits[j].x, y: hits[j].y })
}

/// `r` is the boundary pixel of some hit of `hits` at position `j` or later.
pub open spec fn boundary_from_hit(hits: Seq<Hit>, j: int, r: Region) -> bool {
    &&& 0 <= j < hits.len()
    &&& r == (Region::Boundary { x: hits[j].x, y: hits[j].y })
}

proof fn lemma_walk_from_spans(hits: Seq<Hit>, i: int, y: int, last: Option<Hit>, w: int)
    requires
        hits_sorted(hits),
        hits_wf(hits),
        1 <= i <= hits.len(),
        last == Option::Some(hits[i - 1]),
        y == hits[i - 1].y,
    ensures
        forall|k: int|
            0 <= k < walk_from(hits, i, y, last, w).len() && region_is_span(
                #[trigger] walk_from(hits, i, y, last, w)[k],
            ) ==> exists|j: int| i <= j && span_from_pair(hits, j, walk_from(hits, i, y, last, w)[k]),
    decreases hits.len() - i,
{
    if i >= hits.len() {
    } else {
        let h = hits[i];
        let last0 = if h.y != y {
            Option::<Hit>::None
        } else {
            last
        };
        let w0: int = if h.y != y {
            0
        } else {
            w
        };
        let ne = is_new_edge(last0, h);
        let w1: int = if ne {
            w0 + 1
        } else {
            w0
        };
        let emit = step_emit(last0, ne, w1, h);
        let rest = walk_from(hits, i + 1, h.y as int, Option::Some(h), w1);
        let out = walk_from(hits, i, y, last, w);
        assert(out == emit + rest);
        lemma_walk_from_spans(hits, i + 1, h.y as int, Option::Some(h), w1);
        assert forall|k: int|
            0 <= k < out.len() && region_is_span(#[trigger] out[k]) implies exists|j: int|
            i <= j && span_from_pair(hits, j, out[k]) by {
            if k < emit.len() {
                assert(out[k] == emit[k]);
                if region_is_span(emit[k]) {
                    assert(k == 1);
                    assert(h.y == y && last0 == last);
                    assert(span_from_pair(hits, i, out[k]));
                }
            } else {
                assert(out[k] == rest[k - emit.len()]);
                let j = choose|j: int| i + 1 <= j && #[trigger] span_from_pair(hits, j, rest[k - emit.len()]);
                assert(i <= j && span_from_pair(hits, j, out[k]));
            }
        }
    }
}

/// Every span the walk emits lies between two adjacent same-row hits that are
/// more than one pixel apart.
pub proof fn lemma_walk_spans(hits: Seq<Hit>)
    requires
        hits_sorted(hits),
        hits_wf(hits),
    ensures
        forall|k: int|
            0 <= k < walk(hits).len() && region_is_span(#[trigger] walk(hits)[k]) ==> exists|j: int|
                span_from_pair(hits, j, walk(hits)[k]),
{
    if hits.len() == 0 {
    } else {
        let h = hits[0];
        let last0 = Option::<Hit>::None;
        let ne = is_new_edge(last0, h);
        let emit = step_emit(last0, ne, 1, h);
        let rest = walk_from(hits, 1, h.y as int, Option::Some(h), 1);
        assert(walk(hits) == emit + rest);
        assert(emit.len() == 1 && region_is_boundary(emit[0]));
        lemma_walk_from_spans(hits, 1, h.y as int, Option::Some(h), 1);
        assert forall|k: int|
            0 <= k < walk(hits).len() && region_is_span(#[trigger] walk(hits)[k]) implies exists|
            j: int,
        | span_from_pair(hits, j, walk(hits)[k]) by {
            if k == 0 {
                assert(walk(hits)[k] == emit[0]);
            } else {
                assert(walk(hits)[k] == rest[k - 1]);
                let j = choose|j: int| 1 <= j && #[trigger] span_from_pair(hits, j, rest[k - 1]);
                assert(span_from_pair(hits, j, walk(hits)[k]));
            }
        }
    }
}

/// Spans are half-open and never empty: `start_x < end_x`.
pub proof fn lemma_spans_nonempty(hits: Seq<Hit>)
    requires
        hits_sorted(hits),
        hits_wf(hits),
    ensures
        forall|k: int|
            0 <= k < walk(hits).len() ==> (match #[trigger] walk(hits)[k] {
                Region::Span { start_x, end_x, .. } => start_x < end_x,
                Region::Boundary { .. } => true,
            }),
{
    lemma_walk_spans(hits);
    assert forall|k: int| 0 <= k < walk(hits).len() implies (match #[trigger] walk(hits)[k] {
        Region::Span { start_x, end_x, .. } => start_x < end_x,
        Region::Boundary { .. } => true,
    }) by {
        if region_is_span(walk(hits)[k]) {
            let j = choose|j: int| span_from_pair(hits, j, walk(hits)[k]);
            assert(hits[j].x - hits[j - 1].x > 1);
        }
    }
}

proof fn lemma_walk_from_boundaries_are_hits(hits: Seq<Hit>, i: int, y: int, last: Option<Hit>, w: int)
    requires
        hits_sorted(hits),
        hits_wf(hits),
        0 <= i,
    ensures
        forall|k: int|
            0 <= k < walk_from(hits, i, y, last, w).len() && region_is_boundary(
                #[trigger] walk_from(hits, i, y, last, w)[k],
            ) ==> exists|j: int|
                i <= j && boundary_from_hit(hits, j, walk_from(hits, i, y, last, w)[k]),
    decreases hits.len() - i,
{
    if i >= hits.len() {
    } else {
        let h = hits[i];
        let last0 = if h.y != y {
            Option::<Hit>::None
        } else {
            last
        };
        let w0: int = if h.y != y {
            0
        } else {
            w
        };
        let ne = is_new_edge(last0, h);
        let w1: int = if ne {
            w0 + 1
        } else {
            w0
        };
        let emit = step_emit(last0, ne, w1, h);
        let rest = walk_from(hits, i + 1, h.y as int, Option::Some(h), w1);
        let out = walk_from(hits, i, y, last, w);
        assert(out == emit + rest);
        lemma_walk_from_boundaries_are_hits(hits, i + 1, h.y as int, Option::Some(h), w1);
        assert forall|k: int|
            0 <= k < out.len() && region_is_boundary(#[trigger] out[k]) implies exists|j: int|
            i <= j && boundary_from_hit(hits, j, out[k]) by {
            if k < emit.len() {
                assert(out[k] == emit[k]);
                if region_is_boundary(emit[k]) {
                    assert(k == 0);
                    assert(boundary_from_hit(hits, i, out[k]));
                }
            } else {
                assert(out[k] == rest[k - emit.len()]);
                let j = choose|j: int|
                    i + 1 <= j && #[trigger] boundary_from_hit(hits, j, rest[k - emit.len()]);
                assert(i <= j && boundary_from_hit(hits, j, out[k]));
            }
        }
    }
}

/// Every boundary the walk emits is the pixel of some hit.
pub proof fn lemma_walk_boundaries_are_hits(hits: Seq<Hit>)
    requires
        hits_sorted(hits),
        hits_wf(hits),
    ensures
        forall|k: int|
            0 <= k < walk(hits).len() && region_is_boundary(#[trigger] walk(hits)[k]) ==> exists|
                j: int,
            | boundary_from_hit(hits, j, walk(hits)[k]),
{
    lemma_walk_from_boundaries_are_hits(hits, 0, 0, Option::None, 0);
}

/// No pixel is shaded both as a boundary and inside a span of the same row:
/// spans keep strictly between the hits that bound them.
pub proof fn lemma_no_boundary_inside_span(hits: Seq<Hit>)
    requires
        hits_sorted(hits),
        hits_wf(hits),
    ensures
        forall|k1: int, k2: int|
            0 <= k1 < walk(hits).len() && 0 <= k2 < walk(hits).len() ==> (match (
                #[trigger] walk(hits)[k1],
                #[trigger] walk(hits)[k2],
            ) {
                (Region::Boundary { x, y }, Region::Span { start_x, end_x, y: sy }) => y == sy
                    ==> !(start_x <= x < end_x),
                _ => true,
            }),
{
    lemma_walk_spans(hits);
    lemma_walk_boundaries_are_hits(hits);
    assert forall|k1: int, k2: int|
        0 <= k1 < walk(hits).len() && 0 <= k2 < walk(hits).len() implies (match (
        #[trigger] walk(hits)[k1],
        #[trigger] walk(hits)[k2],
    ) {
        (Region::Boundary { x, y }, Region::Span { start_x, end_x, y: sy }) => y == sy ==> !(
        start_x <= x < end_x),
        _ => true,
    }) by {
        if region_is_boundary(walk(hits)[k1]) && region_is_span(walk(hits)[k2]) {
            let jb = choose|j: int| boundary_from_hit(hits, j, walk(hits)[k1]);
            let js = choose|j: int| span_from_pair(hits, j, walk(hits)[k2]);
            if hits[jb].y == hits[js].y {
                if jb <= js - 1 {
                    if jb < js - 1 {
                        assert(hit_lt(hits[jb], hits[js - 1]));
                    }
                    assert(hits[jb].x <= hits[js - 1].x);
                } else {
                    if jb > js {
                        assert(hit_lt(hits[js], hits[jb]));
                    }
                    assert(hits[jb].x >= hits[js].x);
                }
            }
        }
    }
}


/// Lexicographic order on pixel keys `(row, column)`.
pub open spec fn pix_lt(y1: int, x1: int, y2: int, x2: int) -> bool {
    y1 < y2 || (y1 == y2 && x1 < x2)
}

proof fn lemma_walk_from_rows(hits: Seq<Hit>, i: int, y: int, last: Option<Hit>, w: int)
    requires
        hits_sorted(hits),
        hits_wf(hits),
        0 <= i,
    ensures
        i < hits.len() ==> forall|k: int|
            0 <= k < walk_from(hits, i, y, last, w).len() ==> region_row(
                #[trigger] walk_from(hits, i, y, last, w)[k],
            ) >= hits[i].y,
        forall|k1: int, k2: int|
            0 <= k1 < k2 < walk_from(hits, i, y, last, w).len() ==> region_row(
                #[trigger] walk_from(hits, i, y, last, w)[k1],
            ) <= region_row(#[trigger] walk_from(hits, i, y, last, w)[k2]),
    decreases hits.len() - i,
{
    if i >= hits.len() {
    } else {
        let h = hits[i];
        let last0 = if h.y != y {
            Option::<Hit>::None
        } else {
            last
        };
        let w0: int = if h.y != y {
            0
        } else {
            w
        };
        let ne = is_new_edge(last0, h);
        let w1: int = if ne {
            w0 + 1
        } else {
            w0
        };
        let emit = step_emit(last0, ne, w1, h);
        let rest = walk_from(hits, i + 1, h.y as int, Option::Some(h), w1);
        let out = walk_from(hits, i, y, last, w);
        assert(out == emit + rest);
        lemma_walk_from_rows(hits, i + 1, h.y as int, Option::Some(h), w1);
        if i + 1 < hits.len() {
            assert(hit_lt(hits[i], hits[i + 1]));
        }
        assert(forall|k: int| 0 <= k < emit.len() ==> region_row(#[trigger] emit[k]) == h.y);
        assert forall|k: int| 0 <= k < out.len() implies region_row(#[trigger] out[k]) >= hits[i].y by {
            if k < emit.len() {
                assert(out[k] == emit[k]);
            } else {
                assert(out[k] == rest[k - emit.len()]);
            }
        }
        assert forall|k1: int, k2: int| 0 <= k1 < k2 < out.len() implies region_row(
            #[trigger] out[k1],
        ) <= region_row(#[trigger] out[k2]) by {
            if k1 < emit.len() {
                assert(out[k1] == emit[k1]);
            } else {
                assert(out[k1] == rest[k1 - emit.len()]);
            }
            if k2 < emit.len() {
                assert(out[k2] == emit[k2]);
            } else {
                assert(out[k2] == rest[k2 - emit.len()]);
            }
        }
    }
}

/// The rows of the emitted regions never decrease along the stream.
pub proof fn lemma_rows_nondecreasing(hits: Seq<Hit>)
    requires
        hits_sorted(hits),
        hits_wf(hits),
    ensures
        forall|k1: int, k2: int|
            0 <= k1 < k2 < walk(hits).len() ==> region_row(#[trigger] walk(hits)[k1]) <= region_row(
                #[trigger] walk(hits)[k2],
            ),
{
    lemma_walk_from_rows(hits, 0, 0, Option::None, 0);
}

proof fn lemma_walk_from_bnd_sorted(hits: Seq<Hit>, i: int, y: int, last: Option<Hit>, w: int)
    requires
        hits_sorted(hits),
        hits_wf(hits),
        0 <= i,
    ensures
        i < hits.len() ==> forall|k: int|
            0 <= k < walk_from(hits, i, y, last, w).len() && region_is_boundary(
                #[trigger] walk_from(hits, i, y, last, w)[k],
            ) ==> (match walk_from(hits, i, y, last, w)[k] {
                Region::Boundary { x, y: by } => by > hits[i].y || (by == hits[i].y && x
                    >= hits[i].x),
                Region::Span { .. } => true,
            }),
        forall|k1: int, k2: int|
            0 <= k1 < k2 < walk_from(hits, i, y, last, w).len() && region_is_boundary(
                #[trigger] walk_from(hits, i, y, last, w)[k1],
            ) && region_is_boundary(#[trigger] walk_from(hits, i, y, last, w)[k2]) ==> (match (
                walk_from(hits, i, y, last, w)[k1],
                walk_from(hits, i, y, last, w)[k2],
            ) {
                (Region::Boundary { x: x1, y: y1 }, Region::Boundary { x: x2, y: y2 }) => pix_lt(
                    y1 as int,
                    x1 as int,
                    y2 as int,
                    x2 as int,
                ),
                _ => true,
            }),
    decreases hits.len() - i,
{
    if i >= hits.len() {
    } else {
        let h = hits[i];
        let last0 = if h.y != y {
            Option::<Hit>::None
        } else {
            last
        };
        let w0: int = if h.y != y {
            0
        } else {
            w
        };
        let ne = is_new_edge(last0, h);
        let w1: int = if ne {
            w0 + 1
        } else {
            w0
        };
        let emit = step_emit(last0, ne, w1, h);
        let rest = walk_from(hits, i + 1, h.y as int, Option::Some(h), w1);
        let out = walk_from(hits, i, y, last, w);
        assert(out == emit + rest);
        lemma_walk_from_bnd_sorted(hits, i + 1, h.y as int, Option::Some(h), w1);
        if i + 1 < hits.len() {
            assert(hit_lt(hits[i], hits[i + 1]));
        }
        assert(region_is_boundary(emit[0]) && emit[0] == (Region::Boundary { x: h.x, y: h.y }));
        assert(forall|k: int|
            1 <= k < emit.len() ==> !region_is_boundary(#[trigger] emit[k]));
        assert forall|k1: int, k2: int|
            0 <= k1 < k2 < out.len() && region_is_boundary(#[trigger] out[k1])
                && region_is_boundary(#[trigger] out[k2]) implies (match (out[k1], out[k2]) {
            (Region::Boundary { x: x1, y: y1 }, Region::Boundary { x: x2, y: y2 }) => pix_lt(
                y1 as int,
                x1 as int,
                y2 as int,
                x2 as int,
            ),
            _ => true,
        }) by {
            if k1 < emit.len() {
                assert(out[k1] == emit[k1]);
            } else {
                assert(out[k1] == rest[k1 - emit.len()]);
            }
            if k2 < emit.len() {
                assert(out[k2] == emit[k2]);
            } else {
                assert(out[k2] == rest[k2 - emit.len()]);
            }
        }
        assert forall|k: int|
            0 <= k < out.len() && region_is_boundary(#[trigger] out[k]) implies (match out[k] {
            Region::Boundary { x, y: by } => by > hits[i].y || (by == hits[i].y && x >= hits[i].x),
            Region::Span { .. } => true,
        }) by {
            if k < emit.len() {
                assert(out[k] == emit[k]);
            } else {
                assert(out[k] == rest[k - emit.len()]);
            }
        }
    }
}

/// The boundary commands form a strictly increasing sequence in `(y, x)`:
/// each hit pixel is emitted once, in scanline order.
pub proof fn lemma_boundaries_strictly_ordered(hits: Seq<Hit>)
    requires
        hits_sorted(hits),
        hits_wf(hits),
    ensures
        forall|k1: int, k2: int|
            0 <= k1 < k2 < walk(hits).len() && region_is_boundary(#[trigger] walk(hits)[k1])
                && region_is_boundary(#[trigger] walk(hits)[k2]) ==> (match (
                walk(hits)[k1],
                walk(hits)[k2],
            ) {
                (Region::Boundary { x: x1, y: y1 }, Region::Boundary { x: x2, y: y2 }) => pix_lt(
                    y1 as int,
                    x1 as int,
                    y2 as int,
                    x2 as int,
                ),
                _ => true,
            }),
{
    lemma_walk_from_bnd_sorted(hits, 0, 0, Option::None, 0);
}

proof fn lemma_walk_from_span_sorted(hits: Seq<Hit>, i: int, y: int, last: Option<Hit>, w: int)
    requires
        hits_sorted(hits),
        hits_wf(hits),
        1 <= i <= hits.len(),
        last == Option::Some(hits[i - 1]),
        y == hits[i - 1].y,
    ensures
        forall|k: int|
            0 <= k < walk_from(hits, i, y, last, w).len() && region_is_span(
                #[trigger] walk_from(hits, i, y, last, w)[k],
            ) ==> (match walk_from(hits, i, y, last, w)[k] {
                Region::Span { start_x, y: sy, .. } => sy > hits[i - 1].y || (sy == hits[i - 1].y
                    && start_x > hits[i - 1].x),
                Region::Boundary { .. } => true,
            }),
        forall|k1: int, k2: int|
            0 <= k1 < k2 < walk_from(hits, i, y, last, w).len() && region_is_span(
                #[trigger] walk_from(hits, i, y, last, w)[k1],
            ) && region_is_span(#[trigger] walk_from(hits, i, y, last, w)[k2]) ==> (match (
                walk_from(hits, i, y, last, w)[k1],
                walk_from(hits, i, y, last, w)[k2],
            ) {
                (
                    Region::Span { start_x: s1, y: y1, .. },
                    Region::Span { start_x: s2, y: y2, .. },
                ) => pix_lt(y1 as int, s1 as int, y2 as int, s2 as int),
                _ => true,
            }),
    decreases hits.len() - i,
{
    if i >= hits.len() {
    } else {
        let h = hits[i];
        let last0 = if h.y != y {
            Option::<Hit>::None
        } else {
            last
        };
        let w0: int = if h.y != y {
            0
        } else {
            w
        };
        let ne = is_new_edge(last0, h);
        let w1: int = if ne {
            w0 + 1
        } else {
            w0
        };
        let emit = step_emit(last0, ne, w1, h);
        let rest = walk_from(hits, i + 1, h.y as int, Option::Some(h), w1);
        let out = walk_from(hits, i, y, last, w);
        assert(out == emit + rest);
        lemma_walk_from_span_sorted(hits, i + 1, h.y as int, Option::Some(h), w1);
        assert(hit_lt(hits[i - 1], hits[i]));
        assert forall|k: int|
            0 <= k < out.len() && region_is_span(#[trigger] out[k]) implies (match out[k] {
            Region::Span { start_x, y: sy, .. } => sy > hits[i - 1].y || (sy == hits[i - 1].y
                && start_x > hits[i - 1].x),
            Region::Boundary { .. } => true,
        }) by {
            if k < emit.len() {
                assert(out[k] == emit[k]);
            } else {
                assert(out[k] == rest[k - emit.len()]);
            }
        }
        assert forall|k1: int, k2: int|
            0 <= k1 < k2 < out.len() && region_is_span(#[trigger] out[k1]) && region_is_span(
            #[trigger] out[k2]) implies (match (out[k1], out[k2]) {
            (
                Region::Span { start_x: s1, y: y1, .. },
                Region::Span { start_x: s2, y: y2, .. },
            ) => pix_lt(y1 as int, s1 as int, y2 as int, s2 as int),
            _ => true,
        }) by {
            if k1 < emit.len() {
                assert(out[k1] == emit[k1]);
                assert(k1 == 1 && region_is_span(emit[1]));
                assert(out[k2] == rest[k2 - emit.len()]);
            } else {
                assert(out[k1] == rest[k1 - emit.len()]);
                assert(out[k2] == rest[k2 - emit.len()]);
            }
        }
    }
}

/// The spans form a strictly increasing sequence in `(y, start_x)`.
pub proof fn lemma_spans_strictly_ordered(hits: Seq<Hit>)
    requires
        hits_sorted(hits),
        hits_wf(hits),
    ensures
        forall|k1: int, k2: int|
            0 <= k1 < k2 < walk(hits).len() && region_is_span(#[trigger] walk(hits)[k1])
                && region_is_span(#[trigger] walk(hits)[k2]) ==> (match (
                walk(hits)[k1],
                walk(hits)[k2],
            ) {
                (
                    Region::Span { start_x: s1, y: y1, .. },
                    Region::Span { start_x: s2, y: y2, .. },
                ) => pix_lt(y1 as int, s1 as int, y2 as int, s2 as int),
                _ => true,
            }),
{
    if hits.len() == 0 {
    } else {
        let h = hits[0];
        let emit = step_emit(Option::<Hit>::None, true, 1, h);
        let rest = walk_from(hits, 1, h.y as int, Option::Some(h), 1);
        assert(walk(hits) == emit + rest);
        assert(emit.len() == 1 && region_is_boundary(emit[0]));
        if hits.len() > 1 {
            lemma_walk_from_span_sorted(hits, 1, h.y as int, Option::Some(h), 1);
        }
        assert forall|k1: int, k2: int|
            0 <= k1 < k2 < walk(hits).len() && region_is_span(#[trigger] walk(hits)[k1])
                && region_is_span(#[trigger] walk(hits)[k2]) implies (match (
            walk(hits)[k1],
            walk(hits)[k2],
        ) {
            (
                Region::Span { start_x: s1, y: y1, .. },
                Region::Span { start_x: s2, y: y2, .. },
            ) => pix_lt(y1 as int, s1 as int, y2 as int, s2 as int),
            _ => true,
        }) by {
            assert(k1 >= 1);
            assert(walk(hits)[k1] == rest[k1 - 1]);
            assert(walk(hits)[k2] == rest[k2 - 1]);
        }
    }
}

/// The walk reads segment identifiers only through equality of adjacent
/// hits: two hit sequences with the same pixels and vertical extents, whose
/// adjacent-identifier-equality pattern agrees, walk to the same regions.
/// In particular the regions do not depend on how segments are numbered.
pub proof fn lemma_walk_ignores_ids(h1: Seq<Hit>, h2: Seq<Hit>)
    requires
        h1.len() == h2.len(),
        forall|i: int|
            0 <= i < h1.len() ==> ((#[trigger] h1[i]).x == (#[trigger] h2[i]).x && h1[i].y
                == h2[i].y && h1[i].y_start == h2[i].y_start && h1[i].y_end == h2[i].y_end),
        forall|i: int|
            1 <= i < h1.len() ==> (((#[trigger] h1[i]).segment_id == h1[i - 1].segment_id) <==> ((
            #[trigger] h2[i]).segment_id == h2[i - 1].segment_id)),
    ensures
        walk(h1) == walk(h2),
{
    if h1.len() == 0 {
    } else {
        assert(step_emit(Option::<Hit>::None, true, 1, h1[0]) == step_emit(
            Option::<Hit>::None,
            true,
            1,
            h2[0],
        ));
        lemma_walk_from_ignores_ids(h1, h2, 1, h1[0].y as int, 1);
        assert(walk(h1) == step_emit(Option::<Hit>::None, true, 1, h1[0]) + walk_from(
            h1,
            1,
            h1[0].y as int,
            Option::Some(h1[0]),
            1,
        ));
        assert(walk(h2) == step_emit(Option::<Hit>::None, true, 1, h2[0]) + walk_from(
            h2,
            1,
            h2[0].y as int,
            Option::Some(h2[0]),
            1,
        ));
    }
}

proof fn lemma_walk_from_ignores_ids(h1: Seq<Hit>, h2: Seq<Hit>, i: int, y: int, w: int)
    requires
        h1.len() == h2.len(),
        forall|i: int|
            0 <= i < h1.len() ==> ((#[trigger] h1[i]).x == (#[trigger] h2[i]).x && h1[i].y
                == h2[i].y && h1[i].y_start == h2[i].y_start && h1[i].y_end == h2[i].y_end),
        forall|i: int|
            1 <= i < h1.len() ==> (((#[trigger] h1[i]).segment_id == h1[i - 1].segment_id) <==> ((
            #[trigger] h2[i]).segment_id == h2[i - 1].segment_id)),
        1 <= i <= h1.len(),
    ensures
        walk_from(h1, i, y, Option::Some(h1[i - 1]), w) == walk_from(
            h2,
            i,
            y,
            Option::Some(h2[i - 1]),
            w,
        ),
    decreases h1.len() - i,
{
    if i >= h1.len() {
    } else {
        let a = h1[i];
        let b = h2[i];
        let last0a = if a.y != y {
            Option::<Hit>::None
        } else {
            Option::Some(h1[i - 1])
        };
        let last0b = if b.y != y {
            Option::<Hit>::None
        } else {
            Option::Some(h2[i - 1])
        };
        let w0: int = if a.y != y {
            0
        } else {
            w
        };
        let nea = is_new_edge(last0a, a);
        let neb = is_new_edge(last0b, b);
        assert(nea == neb);
        let w1: int = if nea {
            w0 + 1
        } else {
            w0
        };
        assert(step_emit(last0a, nea, w1, a) == step_emit(last0b, neb, w1, b));
        lemma_walk_from_ignores_ids(h1, h2, i + 1, a.y as int, w1);
    }
}


/// The hit translated by `(dx, dy)` pixels.
pub open spec fn tr_hit(h: Hit, dx: int, dy: int) -> Hit {
    Hit {
        x: (h.x + dx) as i64,
        y: (h.y + dy) as i64,
        y_start: (h.y_start + dy * SCALE) as i64,
        y_end: (h.y_end + dy * SCALE) as i64,
        segment_id: h.segment_id,
    }
}

/// The region translated by `(dx, dy)` pixels.
pub open spec fn tr_region(r: Region, dx: int, dy: int) -> Region {
    match r {
        Region::Boundary { x, y } => Region::Boundary { x: (x + dx) as i64, y: (y + dy) as i64 },
        Region::Span { start_x, end_x, y } => Region::Span {
            start_x: (start_x + dx) as i64,
            end_x: (end_x + dx) as i64,
            y: (y + dy) as i64,
        },
    }
}

/// The translated values still fit the supported ranges, so no cast clips.
pub open spec fn tr_fits(hits: Seq<Hit>, dx: int, dy: int) -> bool {
    forall|i: int|
        0 <= i < hits.len() ==> (in_pixel((#[trigger] hits[i]).x + dx) && in_pixel(hits[i].y + dy)
            && in_coord(hits[i].y_start + dy * SCALE) && in_coord(hits[i].y_end + dy * SCALE))
}

proof fn lemma_walk_from_translates(hits: Seq<Hit>, dx: int, dy: int, i: int, y: int, w: int)
    requires
        hits_wf(hits),
        tr_fits(hits, dx, dy),
        1 <= i <= hits.len(),
        in_pixel(y) && in_pixel(y + dy),
    ensures
        walk_from(hits.map_values(|h: Hit| tr_hit(h, dx, dy)), i, y + dy, Option::Some(
            tr_hit(hits[i - 1], dx, dy),
        ), w) == walk_from(hits, i, y, Option::Some(hits[i - 1]), w).map_values(
            |r: Region| tr_region(r, dx, dy),
        ),
    decreases hits.len() - i,
{
    let trh = hits.map_values(|h: Hit| tr_hit(h, dx, dy));
    let out = walk_from(hits, i, y, Option::Some(hits[i - 1]), w);
    let out_t = walk_from(trh, i, y + dy, Option::Some(tr_hit(hits[i - 1], dx, dy)), w);
    if i >= hits.len() {
        assert(out_t =~= out.map_values(|r: Region| tr_region(r, dx, dy)));
    } else {
        let h = hits[i];
        let ht = tr_hit(h, dx, dy);
        assert(trh[i] == ht);
        let reset = h.y != y;
        assert((ht.y != y + dy) == reset);
        let last0 = if reset {
            Option::<Hit>::None
        } else {
            Option::Some(hits[i - 1])
        };
        let last0t = if reset {
            Option::<Hit>::None
        } else {
            Option::Some(tr_hit(hits[i - 1], dx, dy))
        };
        let w0: int = if reset {
            0
        } else {
            w
        };
        let ne = is_new_edge(last0, h);
        let net = is_new_edge(last0t, ht);
        assert(h.wf());
        assert(ne == net);
        let w1: int = if ne {
            w0 + 1
        } else {
            w0
        };
        let emit = step_emit(last0, ne, w1, h);
        let emit_t = step_emit(last0t, net, w1, ht);
        assert(emit_t =~= emit.map_values(|r: Region| tr_region(r, dx, dy)));
        lemma_walk_from_translates(hits, dx, dy, i + 1, h.y as int, w1);
        assert(out == emit + walk_from(hits, i + 1, h.y as int, Option::Some(h), w1));
        assert(out_t == emit_t + walk_from(trh, i + 1, ht.y as int, Option::Some(ht), w1));
        assert(out_t =~= out.map_values(|r: Region| tr_region(r, dx, dy)));
    }
}

/// Translating every hit by an integer pixel offset translates every emitted
/// region by the same offset.
pub proof fn lemma_walk_translates(hits: Seq<Hit>, dx: int, dy: int)
    requires
        hits_wf(hits),
        tr_fits(hits, dx, dy),
    ensures
        walk(hits.map_values(|h: Hit| tr_hit(h, dx, dy))) == walk(hits).map_values(
            |r: Region| tr_region(r, dx, dy),
        ),
{
    let trh = hits.map_values(|h: Hit| tr_hit(h, dx, dy));
    if hits.len() == 0 {
        assert(walk(trh) =~= walk(hits).map_values(|r: Region| tr_region(r, dx, dy)));
    } else {
        let h = hits[0];
        let ht = tr_hit(h, dx, dy);
        assert(trh[0] == ht);
        assert(h.wf());
        // At the first hit the previous-hit state is empty either way, so
        // both walks open a new edge with winding one.
        let emit = step_emit(Option::<Hit>::None, true, 1, h);
        let emit_t = step_emit(Option::<Hit>::None, true, 1, ht);
        assert(walk(hits) == emit + walk_from(hits, 1, h.y as int, Option::Some(h), 1));
        assert(walk(trh) == emit_t + walk_from(trh, 1, ht.y as int, Option::Some(ht), 1));
        assert(emit_t =~= emit.map_values(|r: Region| tr_region(r, dx, dy)));
        lemma_walk_from_translates(hits, dx, dy, 1, h.y as int, 1);
        assert(walk(trh) =~= walk(hits).map_values(|r: Region| tr_region(r, dx, dy)));
    }
}

/// A sampled line crossing solves its equation to within the line's own
/// vertical extent scaled down by the parameter resolution: the returned
/// parameter's exact `y` numerator differs from the target by at most one
/// parameter step, which for a line is `|p1.y - p0.y|` subunits over `T_ONE`.
pub proof fn lemma_line_sample_accuracy(p0: V2, p1: V2, yq: int, t: int)
    requires
        bracketed(Segment::Line { p0, p1 }, true, yq * (T_ONE as int), t),
    ensures
        -(if p1.y >= p0.y {
            p1.y - p0.y
        } else {
            p0.y - p1.y
        }) <= line_num(p0.y as int, p1.y as int, t) - yq * (T_ONE as int) <= (if p1.y >= p0.y {
            p1.y - p0.y
        } else {
            p0.y - p1.y
        }),
{
    let s = Segment::Line { p0, p1 };
    let tgt = yq * (T_ONE as int);
    let u = choose|u: int|
        0 <= u && u + 1 <= T_ONE && (t == u || t == u + 1) && ((#[trigger] poly_num(s, true, u)
            <= tgt <= poly_num(s, true, u + 1)) || (poly_num(s, true, u) >= tgt >= poly_num(
            s,
            true,
            u + 1,
        )));
    assert(poly_num(s, true, u) == line_num(p0.y as int, p1.y as int, u));
    assert(line_num(p0.y as int, p1.y as int, u + 1) - line_num(p0.y as int, p1.y as int, u)
        == p1.y - p0.y) by (nonlinear_arith);
}


proof fn lemma_walk_from_span_placement(hits: Seq<Hit>, i: int, y: int, last: Option<Hit>, w: int)
    requires
        hits_sorted(hits),
        hits_wf(hits),
        0 <= i,
    ensures
        walk_from(hits, i, y, last, w).len() > 0 ==> region_is_boundary(
            walk_from(hits, i, y, last, w)[0],
        ),
        forall|k: int|
            0 <= k < walk_from(hits, i, y, last, w).len() && region_is_span(
                #[trigger] walk_from(hits, i, y, last, w)[k],
            ) ==> (k >= 1 && (match (
                walk_from(hits, i, y, last, w)[k - 1],
                walk_from(hits, i, y, last, w)[k],
            ) {
                (Region::Boundary { x, y: by }, Region::Span { end_x, y: sy, .. }) => x == end_x
                    && by == sy,
                _ => false,
            })),
    decreases hits.len() - i,
{
    if i >= hits.len() {
    } else {
        let h = hits[i];
        let last0 = if h.y != y {
            Option::<Hit>::None
        } else {
            last
        };
        let w0: int = if h.y != y {
            0
        } else {
            w
        };
        let ne = is_new_edge(last0, h);
        let w1: int = if ne {
            w0 + 1
        } else {
            w0
        };
        let emit = step_emit(last0, ne, w1, h);
        let rest = walk_from(hits, i + 1, h.y as int, Option::Some(h), w1);
        let out = walk_from(hits, i, y, last, w);
        assert(out == emit + rest);
        lemma_walk_from_span_placement(hits, i + 1, h.y as int, Option::Some(h), w1);
        assert(region_is_boundary(emit[0]));
        assert forall|k: int|
            0 <= k < out.len() && region_is_span(#[trigger] out[k]) implies (k >= 1 && (match (
            out[k - 1],
            out[k],
        ) {
            (Region::Boundary { x, y: by }, Region::Span { end_x, y: sy, .. }) => x == end_x && by
                == sy,
            _ => false,
        })) by {
            if k < emit.len() {
                assert(out[k] == emit[k]);
                assert(k == 1);
                assert(out[0] == emit[0]);
            } else if k == emit.len() {
                assert(out[k] == rest[0]);
            } else {
                assert(out[k] == rest[k - emit.len()]);
                assert(out[k - 1] == rest[k - emit.len() - 1]);
            }
        }
    }
}

/// A span is emitted directly after the boundary pixel at its right end: the
/// stream interleaves each interior run between the two boundaries it joins.
pub proof fn lemma_span_follows_boundary(hits: Seq<Hit>)
    requires
        hits_sorted(hits),
        hits_wf(hits),
    ensures
        forall|k: int|
            0 <= k < walk(hits).len() && region_is_span(#[trigger] walk(hits)[k]) ==> (k >= 1 && (
            match (walk(hits)[k - 1], walk(hits)[k]) {
                (Region::Boundary { x, y: by }, Region::Span { end_x, y: sy, .. }) => x == end_x
                    && by == sy,
                _ => false,
            })),
{
    lemma_walk_from_span_placement(hits, 0, 0, Option::None, 0);
}


/// The point translated by subpixel offsets `(ox, oy)`.
pub open spec fn tr_v2(p: V2, ox: int, oy: int) -> V2 {
    V2 { x: (p.x + ox) as i64, y: (p.y + oy) as i64 }
}

/// The segment with every control point translated by `(ox, oy)`.
pub open spec fn tr_seg(s: Segment, ox: int, oy: int) -> Segment {
    match s {
        Segment::Line { p0, p1 } => Segment::Line {
            p0: tr_v2(p0, ox, oy),
            p1: tr_v2(p1, ox, oy),
        },
        Segment::Quadratic { p0, c, p1 } => Segment::Quadratic {
            p0: tr_v2(p0, ox, oy),
            c: tr_v2(c, ox, oy),
            p1: tr_v2(p1, ox, oy),
        },
        Segment::Cubic { p0, c0, c1, p1 } => Segment::Cubic {
            p0: tr_v2(p0, ox, oy),
            c0: tr_v2(c0, ox, oy),
            c1: tr_v2(c1, ox, oy),
            p1: tr_v2(p1, ox, oy),
        },
    }
}

/// The translated point stays within the coordinate range, so the casts in
/// [`tr_v2`] change nothing.
pub open spec fn tr_v2_fits(p: V2, ox: int, oy: int) -> bool {
    in_coord(p.x + ox) && in_coord(p.y + oy)
}

/// Every translated control point stays within the coordinate range.
pub open spec fn tr_seg_fits(s: Segment, ox: int, oy: int) -> bool {
    s.in_range() && (match s {
        Segment::Line { p0, p1 } => tr_v2_fits(p0, ox, oy) && tr_v2_fits(p1, ox, oy),
        Segment::Quadratic { p0, c, p1 } => tr_v2_fits(p0, ox, oy) && tr_v2_fits(c, ox, oy)
            && tr_v2_fits(p1, ox, oy),
        Segment::Cubic { p0, c0, c1, p1 } => tr_v2_fits(p0, ox, oy) && tr_v2_fits(c0, ox, oy)
            && tr_v2_fits(c1, ox, oy) && tr_v2_fits(p1, ox, oy),
    })
}

/// Translating the control points shifts every coordinate numerator by the
/// offset scaled by the denominator.
proof fn lemma_poly_num_shift(s: Segment, yaxis: bool, t: int, ox: int, oy: int)
    requires
        tr_seg_fits(s, ox, oy),
        0 <= t <= T_ONE,
    ensures
        poly_num(tr_seg(s, ox, oy), yaxis, t) == poly_num(s, yaxis, t) + (if yaxis {
            oy
        } else {
            ox
        }) * s.denom(),
{
    let o: int = if yaxis {
        oy
    } else {
        ox
    };
    let tm: int = T_ONE as int;
    let u: int = tm - t;
    match s {
        Segment::Line { p0, p1 } => {
            let a: int = axis_of(p0, yaxis);
            let b: int = axis_of(p1, yaxis);
            assert(axis_of(tr_v2(p0, ox, oy), yaxis) == a + o);
            assert(axis_of(tr_v2(p1, ox, oy), yaxis) == b + o);
            assert(line_num(a + o, b + o, t) == line_num(a, b, t) + o * tm) by (nonlinear_arith)
                requires
                    tm == T_ONE as int,
            ;
        },
        Segment::Quadratic { p0, c, p1 } => {
            let a: int = axis_of(p0, yaxis);
            let b: int = axis_of(c, yaxis);
            let cc: int = axis_of(p1, yaxis);
            assert(axis_of(tr_v2(p0, ox, oy), yaxis) == a + o);
            assert(axis_of(tr_v2(c, ox, oy), yaxis) == b + o);
            assert(axis_of(tr_v2(p1, ox, oy), yaxis) == cc + o);
            assert(quad_num(a + o, b + o, cc + o, t) == quad_num(a, b, cc, t) + o * (tm * tm))
                by (nonlinear_arith)
                requires
                    tm == T_ONE as int,
            ;
        },
        Segment::Cubic { p0, c0, c1, p1 } => {
            let a: int = axis_of(p0, yaxis);
            let b: int = axis_of(c0, yaxis);
            let cc: int = axis_of(c1, yaxis);
            let d: int = axis_of(p1, yaxis);
            assert(axis_of(tr_v2(p0, ox, oy), yaxis) == a + o);
            assert(axis_of(tr_v2(c0, ox, oy), yaxis) == b + o);
            assert(axis_of(tr_v2(c1, ox, oy), yaxis) == cc + o);
            assert(axis_of(tr_v2(p1, ox, oy), yaxis) == d + o);
            let cn: int = cubic_num(a, b, cc, d, t);
            let cns: int = cubic_num(a + o, b + o, cc + o, d + o, t);
            let w0: int = u * (u * u);
            let w1: int = 3 * (u * (u * t));
            let w2: int = 3 * (u * (t * t));
            let w3: int = t * (t * t);
            assert(cn == a * u * u * u + 3 * b * u * u * t + 3 * cc * u * t * t + d * t * t * t);
            assert(cns == (a + o) * u * u * u + 3 * (b + o) * u * u * t + 3 * (cc + o) * u * t * t
                + (d + o) * t * t * t);
            assert((a + o) * u * u * u == a * u * u * u + o * w0) by (nonlinear_arith)
                requires
                    w0 == u * (u * u),
            ;
            assert(3 * (b + o) * u * u * t == 3 * b * u * u * t + o * w1) by (nonlinear_arith)
                requires
                    w1 == 3 * (u * (u * t)),
            ;
            assert(3 * (cc + o) * u * t * t == 3 * cc * u * t * t + o * w2) by (nonlinear_arith)
                requires
                    w2 == 3 * (u * (t * t)),
            ;
            assert((d + o) * t * t * t == d * t * t * t + o * w3) by (nonlinear_arith)
                requires
                    w3 == t * (t * t),
            ;
            assert(cns == cn + o * w0 + o * w1 + o * w2 + o * w3);
            assert(w0 + w1 + w2 + w3 == tm * (tm * tm)) by (nonlinear_arith)
                requires
                    u == tm - t,
                    w0 == u * (u * u),
                    w1 == 3 * (u * (u * t)),
                    w2 == 3 * (u * (t * t)),
                    w3 == t * (t * t),
            ;
            assert(o * w0 + o * w1 + o * w2 + o * w3 == o * (tm * (tm * tm))) by (nonlinear_arith)
                requires
                    w0 + w1 + w2 + w3 == tm * (tm * tm),
            ;
            assert(o * (tm * (tm * tm)) == o * (tm * tm * tm)) by (nonlinear_arith);
        },
    }
}

/// The bisection takes the same path over a translated segment and a target
/// shifted by the same offset, so it lands on the same parameter.
proof fn lemma_bisect_rec_shift(
    s: Segment,
    yaxis: bool,
    tgt: int,
    inc: bool,
    lo: int,
    hi: int,
    ox: int,
    oy: int,
)
    requires
        tr_seg_fits(s, ox, oy),
        0 <= lo,
        hi <= T_ONE,
    ensures
        bisect_rec(
            tr_seg(s, ox, oy),
            yaxis,
            tgt + (if yaxis {
                oy
            } else {
                ox
            }) * s.denom(),
            inc,
            lo,
            hi,
        ) == bisect_rec(s, yaxis, tgt, inc, lo, hi),
    decreases hi - lo,
{
    if hi - lo <= 1 {
    } else {
        let mid = lo + (hi - lo) / 2;
        lemma_poly_num_shift(s, yaxis, mid, ox, oy);
        assert(tr_seg(s, ox, oy).denom() == s.denom());
        lemma_bisect_rec_shift(s, yaxis, tgt, inc, mid, hi, ox, oy);
        lemma_bisect_rec_shift(s, yaxis, tgt, inc, lo, mid, ox, oy);
    }
}

/// The final bracket position stays within the search interval.
proof fn lemma_bisect_rec_range(s: Segment, yaxis: bool, tgt: int, inc: bool, lo: int, hi: int)
    requires
        lo < hi,
    ensures
        lo <= bisect_rec(s, yaxis, tgt, inc, lo, hi) <= hi - 1,
    decreases hi - lo,
{
    if hi - lo <= 1 {
    } else {
        let mid = lo + (hi - lo) / 2;
        lemma_bisect_rec_range(s, yaxis, tgt, inc, mid, hi);
        lemma_bisect_rec_range(s, yaxis, tgt, inc, lo, mid);
    }
}

/// Sampling is translation-equivariant: translating a segment by whole
/// subpixel offsets and shifting the queried line by the matching offset
/// yields the same parameter and the solved coordinate shifted by the other
/// axis offset. This carries the integer-translation law through the
/// root-finding stage.
#[verifier::rlimit(60)]
pub proof fn lemma_sample_translates(s: Segment, yaxis: bool, v: int, ox: int, oy: int)
    requires
        tr_seg_fits(s, ox, oy),
    ensures
        sample_axis_spec(
            tr_seg(s, ox, oy),
            yaxis,
            v + (if yaxis {
                oy
            } else {
                ox
            }),
        ) == (match sample_axis_spec(s, yaxis, v) {
            Option::None => Option::<Intersection>::None,
            Option::Some(it) => Option::Some(
                Intersection {
                    axis: (it.axis + (if yaxis {
                        ox
                    } else {
                        oy
                    })) as i64,
                    t: it.t,
                },
            ),
        }),
{
    let st = tr_seg(s, ox, oy);
    let o: int = if yaxis {
        oy
    } else {
        ox
    };
    let oo: int = if yaxis {
        ox
    } else {
        oy
    };
    assert(st.denom() == s.denom());
    match s {
        Segment::Line { p0, p1 } => {
            assert(st.x_monotone() == s.x_monotone());
        },
        Segment::Quadratic { p0, c, p1 } => {
            assert(tr_v2(p0, ox, oy).x == p0.x + ox);
            assert(tr_v2(c, ox, oy).x == c.x + ox);
            assert(tr_v2(p1, ox, oy).x == p1.x + ox);
            assert(st.x_monotone() == s.x_monotone());
        },
        Segment::Cubic { p0, c0, c1, p1 } => {
            assert(tr_v2(p0, ox, oy).x == p0.x + ox);
            assert(tr_v2(c0, ox, oy).x == c0.x + ox);
            assert(tr_v2(c1, ox, oy).x == c1.x + ox);
            assert(tr_v2(p1, ox, oy).x == p1.x + ox);
            assert(st.x_monotone() == s.x_monotone());
        },
    }
    assert(st.start() == tr_v2(s.start(), ox, oy) && st.end() == tr_v2(s.end(), ox, oy));
    assert(tr_v2_fits(s.start(), ox, oy) && tr_v2_fits(s.end(), ox, oy));
    assert(st.in_range());
    let sv = axis_of(s.start(), yaxis);
    let ev = axis_of(s.end(), yaxis);
    assert(axis_of(st.start(), yaxis) == sv + o);
    assert(axis_of(st.end(), yaxis) == ev + o);
    assert(vstd::math::min(sv + o, ev + o) == vstd::math::min(sv, ev) + o);
    assert(vstd::math::max(sv + o, ev + o) == vstd::math::max(sv, ev) + o);
    let dn = s.denom();
    assert(dn > 0);
    if (yaxis || s.x_monotone()) && sv != ev && vstd::math::min(sv, ev) <= v <= vstd::math::max(
        sv,
        ev,
    ) {
        let tgt = v * dn;
        let inc = ev > sv;
        assert((v + o) * dn == v * dn + o * dn) by (nonlinear_arith);
        lemma_bisect_rec_shift(s, yaxis, tgt, inc, 0, T_ONE as int, ox, oy);
        lemma_bisect_rec_range(s, yaxis, tgt, inc, 0, T_ONE as int);
        let lo = bisect_rec(s, yaxis, tgt, inc, 0, T_ONE as int);
        lemma_poly_num_shift(s, yaxis, lo + 1, ox, oy);
        assert(poly_num(st, yaxis, lo + 1) == tgt + o * dn <==> poly_num(s, yaxis, lo + 1) == tgt);
        let t = bisect_spec(s, yaxis, tgt, inc);
        assert(bisect_spec(st, yaxis, tgt + o * dn, inc) == t);
        assert(0 <= t <= T_ONE);
        lemma_poly_num_shift(s, !yaxis, t, ox, oy);
        vstd::arithmetic::div_mod::lemma_hoist_over_denominator(
            2 * poly_num(s, !yaxis, t) + dn,
            oo,
            (2 * dn) as nat,
        );
        assert(2 * (poly_num(s, !yaxis, t) + oo * dn) + dn == 2 * poly_num(s, !yaxis, t) + dn + oo
            * (2 * dn)) by (nonlinear_arith);
        let va = rdiv(poly_num(s, !yaxis, t), dn);
        let vb = rdiv(poly_num(st, !yaxis, t), dn);
        assert(vb == va + oo);
        lemma_poly_num_bound(s, !yaxis, t);
        lemma_rdiv_bound(poly_num(s, !yaxis, t), dn, COORD_MAX as int);
        lemma_poly_num_bound(st, !yaxis, t);
        lemma_rdiv_bound(poly_num(st, !yaxis, t), dn, COORD_MAX as int);
        assert(in_coord(va) && in_coord(vb));
        assert(sample_axis_spec(s, yaxis, v) == Option::Some(
            (Intersection { axis: va as i64, t: t as i64 }),
        ));
        assert(sample_axis_spec(st, yaxis, v + o) == Option::Some(
            (Intersection { axis: vb as i64, t: t as i64 }),
        ));
        assert((va as i64) as int == va && (vb as i64) as int == vb);
        assert(((va as i64) + oo) as i64 == vb as i64);
    }
}

} // verus!
