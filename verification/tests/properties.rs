//! Property checks of the region builder: ordering, span shape, winding
//! symmetry, translation, coverage bounds, and sampling round trips.

use amicola::Bounds;
use amicola::GridLinesIter;
use amicola::Region;
use amicola::RegionList;
use amicola::SampleDepth;
use amicola::Segment;
use amicola::ShadeCommand;
use amicola::V2;

const S: f64 = 65536.0;

fn fx(v: f64) -> i64 {
    (v * S).round() as i64
}

/// Line segments of a polygon given by its corner points, skipping
/// horizontal edges (the monotone decomposition leaves them out).
fn poly_segments(pts: &[(f64, f64)]) -> Vec<Segment> {
    let mut out = Vec::new();
    for k in 1..pts.len() {
        let (p0, p1) = (pts[k - 1], pts[k]);
        if p0.1 != p1.1 {
            out.push(Segment::Line {
                p0: V2::new(fx(p0.0), fx(p0.1)),
                p1: V2::new(fx(p1.0), fx(p1.1)),
            });
        }
    }
    out
}

fn triangle() -> Vec<(f64, f64)> {
    vec![(0.0, 0.0), (0.0, 5.0), (5.0, 0.0), (0.0, 0.0)]
}

fn pyramid() -> Vec<(f64, f64)> {
    vec![
        (3.0, 5.0),
        (5.0, 9.0),
        (7.0, 2.0),
        (9.0, 9.0),
        (11.0, 5.0),
        (3.0, 5.0),
    ]
}

fn hexagon() -> Vec<(f64, f64)> {
    vec![
        (5.0, 0.0),
        (0.67, 2.5),
        (0.67, 7.5),
        (5.0, 10.0),
        (9.33, 7.5),
        (9.33, 2.5),
        (5.0, 0.0),
    ]
}

fn key(r: &Region) -> (i64, i64) {
    match *r {
        Region::Boundary { x, y } => (y, x),
        Region::Span { start_x, y, .. } => (y, start_x),
    }
}

fn check_stream_invariants(regions: &[Region]) {
    // Rows never decrease along the stream.
    for k in 1..regions.len() {
        assert!(key(&regions[k - 1]).0 <= key(&regions[k]).0);
    }
    // Boundaries strictly ordered by (y, x); spans by (y, start_x).
    let bs: Vec<(i64, i64)> = regions
        .iter()
        .filter(|r| matches!(r, Region::Boundary { .. }))
        .map(key)
        .collect();
    for k in 1..bs.len() {
        assert!(bs[k - 1] < bs[k]);
    }
    let ss: Vec<&Region> = regions
        .iter()
        .filter(|r| matches!(r, Region::Span { .. }))
        .collect();
    for k in 1..ss.len() {
        assert!(key(ss[k - 1]) < key(ss[k]));
    }
    // Spans are non-empty, and no pixel is both boundary and span interior.
    for s in &ss {
        if let Region::Span { start_x, end_x, y } = s {
            assert!(end_x > start_x);
            for b in &bs {
                if b.0 == *y {
                    assert!(!(*start_x <= b.1 && b.1 < *end_x));
                }
            }
        }
    }
}

#[test]
fn stream_invariants_hold_on_scenarios() {
    for pts in [triangle(), pyramid(), hexagon()] {
        let regions = RegionList::from(poly_segments(&pts)).regions();
        assert!(!regions.is_empty());
        check_stream_invariants(&regions);
    }
}

#[test]
fn reversed_winding_emits_same_regions() {
    for pts in [triangle(), pyramid(), hexagon()] {
        let forward = RegionList::from(poly_segments(&pts)).regions();
        let mut rev = pts.clone();
        rev.reverse();
        let backward = RegionList::from(poly_segments(&rev)).regions();
        assert_eq!(forward, backward);
    }
}

#[test]
fn integer_translation_translates_regions() {
    for (dx, dy) in [(3i64, 7i64), (-4, -2)] {
        let base = RegionList::from(poly_segments(&pyramid())).regions();
        let moved: Vec<(f64, f64)> = pyramid()
            .iter()
            .map(|p| (p.0 + dx as f64, p.1 + dy as f64))
            .collect();
        let translated = RegionList::from(poly_segments(&moved)).regions();
        let expected: Vec<Region> = base
            .iter()
            .map(|r| match *r {
                Region::Boundary { x, y } => Region::Boundary { x: x + dx, y: y + dy },
                Region::Span { start_x, end_x, y } => Region::Span {
                    start_x: start_x + dx,
                    end_x: end_x + dx,
                    y: y + dy,
                },
            })
            .collect();
        assert_eq!(translated, expected);
    }
}

#[test]
fn coverage_fraction_within_bounds() {
    for depth in [
        SampleDepth::One,
        SampleDepth::Four,
        SampleDepth::Eight,
        SampleDepth::Sixteen,
        SampleDepth::ThirtyTwo,
        SampleDepth::SixtyFour,
    ] {
        let list = RegionList::from(poly_segments(&triangle()));
        let regions = list.regions();
        let commands = RegionList::from(poly_segments(&triangle())).shade_commands(depth);
        assert_eq!(commands.len(), regions.len());
        let expected_samples: u32 = match depth {
            SampleDepth::One => 1,
            SampleDepth::Four => 4,
            SampleDepth::Eight => 8,
            SampleDepth::Sixteen => 16,
            SampleDepth::ThirtyTwo => 32,
            SampleDepth::SixtyFour => 64,
        };
        let mut interior_seen = false;
        for (r, c) in regions.iter().zip(commands.iter()) {
            match (r, c) {
                (Region::Boundary { x, y }, ShadeCommand::Boundary { x: cx, y: cy, coverage }) => {
                    assert_eq!((x, y), (cx, cy));
                    assert_eq!(coverage.samples, expected_samples);
                    assert!(coverage.covered <= coverage.samples);
                    if coverage.covered > 0 {
                        interior_seen = true;
                    }
                }
                (
                    Region::Span { start_x, end_x, y },
                    ShadeCommand::Span { start_x: cs, end_x: ce, y: cy },
                ) => {
                    assert_eq!((start_x, end_x, y), (cs, ce, cy));
                }
                _ => panic!("command kind does not match region kind"),
            }
        }
        // A filled triangle must cover part of some boundary pixel.
        assert!(interior_seen);
    }
}

fn line_y_at(p0: (f64, f64), p1: (f64, f64), t: f64) -> f64 {
    p0.1 + (p1.1 - p0.1) * t
}

#[test]
fn sample_y_round_trip_on_lines() {
    let p0 = (0.0, 0.0);
    let p1 = (5.0, 10.0);
    let seg = Segment::Line {
        p0: V2::new(fx(p0.0), fx(p0.1)),
        p1: V2::new(fx(p1.0), fx(p1.1)),
    };
    for line in 1..10i64 {
        let it = seg.sample_y(line * 65536).expect("line within vertical extent");
        let t = it.t as f64 / 65536.0;
        let err = (line_y_at(p0, p1, t) - line as f64).abs();
        assert!(err < 1e-3, "crossing of y={} off by {}", line, err);
    }
    assert!(seg.sample_y(11 * 65536).is_none());
    assert!(seg.sample_y(-65536).is_none());
}

fn quad_at(p0: (f64, f64), c: (f64, f64), p1: (f64, f64), t: f64) -> (f64, f64) {
    let u = 1.0 - t;
    (
        p0.0 * u * u + 2.0 * c.0 * u * t + p1.0 * t * t,
        p0.1 * u * u + 2.0 * c.1 * u * t + p1.1 * t * t,
    )
}

#[test]
fn sample_y_round_trip_on_quadratic() {
    let (p0, c, p1) = ((0.0, 0.0), (1.0, 4.0), (6.0, 8.0));
    let seg = Segment::Quadratic {
        p0: V2::new(fx(p0.0), fx(p0.1)),
        c: V2::new(fx(c.0), fx(c.1)),
        p1: V2::new(fx(p1.0), fx(p1.1)),
    };
    for line in 1..8i64 {
        let it = seg.sample_y(line * 65536).expect("line within vertical extent");
        let t = it.t as f64 / 65536.0;
        let (qx, qy) = quad_at(p0, c, p1, t);
        assert!((qy - line as f64).abs() < 1e-3);
        assert!((qx - it.axis as f64 / 65536.0).abs() < 1e-3);
    }
}

#[test]
fn hit_pixels_lie_on_their_segment() {
    let list = RegionList::from(poly_segments(&pyramid()));
    for hit in &list.hits {
        let seg = &list.segments[hit.segment_id];
        let (p0, p1) = match seg {
            Segment::Line { p0, p1 } => (*p0, *p1),
            _ => panic!("pyramid is made of lines"),
        };
        let mut found = false;
        let mut step: i64 = 0;
        while step <= 4096 {
            let t = step as f64 / 4096.0;
            let x = p0.x as f64 + (p1.x as f64 - p0.x as f64) * t;
            let y = p0.y as f64 + (p1.y as f64 - p0.y as f64) * t;
            if (x / 65536.0).floor() as i64 == hit.x && (y / 65536.0).floor() as i64 == hit.y {
                found = true;
                break;
            }
            step += 1;
        }
        assert!(found, "no curve point in pixel ({}, {})", hit.x, hit.y);
    }
}

#[test]
fn empty_input_emits_nothing() {
    let regions = RegionList::from(Vec::new()).regions();
    assert!(regions.is_empty());
}

#[test]
fn degenerate_segment_emits_single_boundary() {
    let p = V2::new(fx(2.5), fx(3.5));
    let regions = RegionList::from(vec![Segment::Line { p0: p, p1: p }]).regions();
    assert_eq!(regions, vec![Region::Boundary { x: 2, y: 3 }]);
}

#[test]
fn grid_lines_are_strictly_interior() {
    let iter = GridLinesIter::new(Bounds {
        min: V2::new(0, 0),
        max: V2::new(5 * 65536, 5 * 65536),
    });
    assert_eq!(iter.horizontal(), vec![1, 2, 3, 4]);
    assert_eq!(iter.vertical(), vec![1, 2, 3, 4]);
    let iter = GridLinesIter::new(Bounds {
        min: V2::new(fx(0.5), fx(-1.5)),
        max: V2::new(fx(4.5), fx(2.0)),
    });
    assert_eq!(iter.horizontal(), vec![-1, 0, 1]);
    assert_eq!(iter.vertical(), vec![1, 2, 3, 4]);
}

#[test]
fn sample_x_on_vertical_line_and_non_monotone_curve() {
    let vertical = Segment::Line {
        p0: V2::new(fx(3.0), fx(0.0)),
        p1: V2::new(fx(3.0), fx(4.0)),
    };
    // A vertical line has no horizontal extent to sample.
    assert!(vertical.sample_x(fx(3.0)).is_none());
    let slanted = Segment::Line {
        p0: V2::new(fx(0.0), fx(0.0)),
        p1: V2::new(fx(4.0), fx(4.0)),
    };
    let it = slanted.sample_x(fx(2.0)).expect("within horizontal extent");
    assert!((it.axis - fx(2.0)).abs() <= 2);
    // A curve whose control polygon doubles back in x is not x-monotone:
    // vertical sampling declines rather than guessing one of two crossings.
    let wiggle = Segment::Cubic {
        p0: V2::new(fx(2.0), fx(2.0)),
        c0: V2::new(fx(2.5), fx(1.5)),
        c1: V2::new(fx(1.5), fx(0.5)),
        p1: V2::new(fx(2.0), fx(0.0)),
    };
    assert!(wiggle.sample_x(fx(2.0)).is_none());
}

#[test]
fn segment_insertion_order_does_not_matter() {
    for pts in [triangle(), pyramid(), hexagon()] {
        let forward = RegionList::from(poly_segments(&pts)).regions();
        let mut shuffled = poly_segments(&pts);
        shuffled.reverse();
        let reordered = RegionList::from(shuffled).regions();
        assert_eq!(forward, reordered);
    }
}
