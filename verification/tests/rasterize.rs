//! Scanline region builder tests: paths are decomposed into y-monotone
//! segments (in double precision) and handed to the library in fixed-point
//! subpixel coordinates.

use amicola::Region;
use amicola::RegionList;
use amicola::Segment;
use amicola::V2;
use amicola::Region::Boundary;
use amicola::Region::Span;

const S: f64 = 65536.0;

#[derive(Clone, Copy, Debug)]
pub enum PathCmd {
    MoveTo(f64, f64),
    LineTo(f64, f64),
    QuadraticTo(f64, f64, f64, f64),
    CubicTo(f64, f64, f64, f64, f64, f64),
}

fn fx(v: f64) -> i64 {
    ((v as f32) as f64 * S).round() as i64
}

fn v2(p: (f64, f64)) -> V2 {
    V2::new(fx(p.0), fx(p.1))
}

fn lerp(a: (f64, f64), b: (f64, f64), t: f64) -> (f64, f64) {
    (a.0 + (b.0 - a.0) * t, a.1 + (b.1 - a.1) * t)
}

fn push_line(out: &mut Vec<Segment>, p0: (f64, f64), p1: (f64, f64)) {
    // A horizontal edge never crosses a scanline; the monotone decomposition
    // leaves it out.
    if p0.1 == p1.1 {
        return;
    }
    out.push(Segment::Line {
        p0: v2(p0),
        p1: v2(p1),
    });
}

fn push_quad_piece(out: &mut Vec<Segment>, p0: (f64, f64), c: (f64, f64), p1: (f64, f64)) {
    out.push(Segment::Quadratic {
        p0: v2(p0),
        c: v2(c),
        p1: v2(p1),
    });
}

fn push_cubic_piece(
    out: &mut Vec<Segment>,
    p0: (f64, f64),
    c0: (f64, f64),
    c1: (f64, f64),
    p1: (f64, f64),
) {
    out.push(Segment::Cubic {
        p0: v2(p0),
        c0: v2(c0),
        c1: v2(c1),
        p1: v2(p1),
    });
}

fn split_quad(
    p0: (f64, f64),
    c: (f64, f64),
    p1: (f64, f64),
    t: f64,
) -> (((f64, f64), (f64, f64), (f64, f64)), ((f64, f64), (f64, f64), (f64, f64))) {
    let q0 = lerp(p0, c, t);
    let q1 = lerp(c, p1, t);
    let m = lerp(q0, q1, t);
    ((p0, q0, m), (m, q1, p1))
}

/// Roots in (0, 1) of the Bernstein-form quadratic with coefficients
/// `(e0, e1, e2)`.
fn bernstein2_roots(e0: f64, e1: f64, e2: f64) -> Vec<f64> {
    let a = e0 - 2.0 * e1 + e2;
    let b = 2.0 * (e1 - e0);
    let c = e0;
    let mut roots: Vec<f64> = Vec::new();
    if a.abs() < 1e-12 {
        if b.abs() > 1e-12 {
            roots.push(-c / b);
        }
    } else {
        let disc = b * b - 4.0 * a * c;
        if disc > 0.0 {
            let sq = disc.sqrt();
            roots.push((-b - sq) / (2.0 * a));
            roots.push((-b + sq) / (2.0 * a));
        }
    }
    roots.retain(|t| *t > 1e-9 && *t < 1.0 - 1e-9);
    roots.sort_by(|x, y| x.partial_cmp(y).unwrap());
    roots
}

fn push_quad(out: &mut Vec<Segment>, p0: (f64, f64), c: (f64, f64), p1: (f64, f64)) {
    // Split at the extrema of both axes so each piece is monotone in y and,
    // where possible, in x.
    let mut roots: Vec<f64> = Vec::new();
    for (d0, d1) in [(c.1 - p0.1, p1.1 - c.1), (c.0 - p0.0, p1.0 - c.0)] {
        if d0 * d1 < 0.0 {
            let t = d0 / (d0 - d1);
            if t > 1e-9 && t < 1.0 - 1e-9 {
                roots.push(t);
            }
        }
    }
    roots.sort_by(|x, y| x.partial_cmp(y).unwrap());
    let mut cur = (p0, c, p1);
    let mut consumed = 0.0;
    for r in roots {
        let local = (r - consumed) / (1.0 - consumed);
        let (l, rest) = split_quad(cur.0, cur.1, cur.2, local);
        push_quad_piece(out, l.0, l.1, l.2);
        cur = rest;
        consumed = r;
    }
    push_quad_piece(out, cur.0, cur.1, cur.2);
}

type Cub = ((f64, f64), (f64, f64), (f64, f64), (f64, f64));

fn split_cubic(p0: (f64, f64), c0: (f64, f64), c1: (f64, f64), p1: (f64, f64), t: f64) -> (Cub, Cub) {
    let a1 = lerp(p0, c0, t);
    let b1 = lerp(c0, c1, t);
    let c1p = lerp(c1, p1, t);
    let a2 = lerp(a1, b1, t);
    let b2 = lerp(b1, c1p, t);
    let m = lerp(a2, b2, t);
    ((p0, a1, a2, m), (m, b2, c1p, p1))
}

fn push_cubic(out: &mut Vec<Segment>, p0: (f64, f64), c0: (f64, f64), c1: (f64, f64), p1: (f64, f64)) {
    // The derivative of each axis is a Bernstein-form quadratic; split at
    // every root so each piece is monotone in y and, where possible, in x.
    let mut roots = bernstein2_roots(c0.1 - p0.1, c1.1 - c0.1, p1.1 - c1.1);
    roots.extend(bernstein2_roots(c0.0 - p0.0, c1.0 - c0.0, p1.0 - c1.0));
    roots.sort_by(|x, y| x.partial_cmp(y).unwrap());
    roots.dedup();
    let mut cur: Cub = (p0, c0, c1, p1);
    let mut consumed = 0.0;
    for r in roots {
        let local = (r - consumed) / (1.0 - consumed);
        let (l, rest) = split_cubic(cur.0, cur.1, cur.2, cur.3, local);
        push_cubic_piece(out, l.0, l.1, l.2, l.3);
        cur = rest;
        consumed = r;
    }
    push_cubic_piece(out, cur.0, cur.1, cur.2, cur.3);
}

/// Builds the y-monotone segment list of a path; closing the path is the
/// caller's business, as it is for the region builder itself.
pub fn build_from_path(cmds: &[PathCmd]) -> Vec<Segment> {
    let mut out: Vec<Segment> = Vec::new();
    let mut cur: Option<(f64, f64)> = None;
    for cmd in cmds {
        match *cmd {
            PathCmd::MoveTo(x, y) => {
                cur = Some((x, y));
            }
            PathCmd::LineTo(x, y) => {
                if let Some(p0) = cur {
                    push_line(&mut out, p0, (x, y));
                }
                cur = Some((x, y));
            }
            PathCmd::QuadraticTo(cx, cy, x, y) => {
                let p0 = cur.expect("quadratic without a current point");
                push_quad(&mut out, p0, (cx, cy), (x, y));
                cur = Some((x, y));
            }
            PathCmd::CubicTo(c0x, c0y, c1x, c1y, x, y) => {
                let p0 = cur.expect("cubic without a current point");
                push_cubic(&mut out, p0, (c0x, c0y), (c1x, c1y), (x, y));
                cur = Some((x, y));
            }
        }
    }
    out
}

fn regions_of(cmds: &[PathCmd]) -> Vec<Region> {
    let list = RegionList::from(build_from_path(cmds));
    println!("Regions: {:#?}", list);
    list.regions()
}

#[test]
fn small_triangle_boundaries() {
    let regions = regions_of(&[
        PathCmd::LineTo(0.0, 0.0),
        PathCmd::LineTo(0.0, 2.0),
        PathCmd::LineTo(2.0, 0.0),
    ]);
    assert_eq!(
        regions,
        vec![
            Region::Boundary { x: 0, y: 0 },
            Region::Boundary { x: 1, y: 0 },
            Region::Boundary { x: 0, y: 1 },
        ]
    );
}

#[test]
fn small_triangle_off_screen_to_left() {
    let regions = regions_of(&[
        PathCmd::LineTo(-1.0, 0.0),
        PathCmd::LineTo(3.0, 0.0),
        PathCmd::LineTo(3.0, 3.0),
        PathCmd::LineTo(-1.0, 0.0),
    ]);
    assert_eq!(
        regions,
        vec![
            Region::Boundary { x: -1, y: 0 },
            Region::Boundary { x: 0, y: 0 },
            Region::Boundary { x: 3, y: 0 },
            Region::Span {
                start_x: 1,
                end_x: 3,
                y: 0
            },
            Region::Boundary { x: 0, y: 1 },
            Region::Boundary { x: 1, y: 1 },
            Region::Boundary { x: 3, y: 1 },
            Region::Span {
                start_x: 2,
                end_x: 3,
                y: 1
            },
            Region::Boundary { x: 1, y: 2 },
            Region::Boundary { x: 2, y: 2 },
            Region::Boundary { x: 3, y: 2 }
        ]
    );
}

#[test]
fn triangle_regions() {
    let regions = regions_of(&[
        PathCmd::LineTo(0.0, 0.0),
        PathCmd::LineTo(0.0, 5.0),
        PathCmd::LineTo(5.0, 0.0),
    ]);
    assert_eq!(
        regions,
        vec![
            Region::Boundary { x: 0, y: 0 },
            Region::Boundary { x: 4, y: 0 },
            Region::Span {
                start_x: 1,
                end_x: 4,
                y: 0,
            },
            Region::Boundary { x: 0, y: 1 },
            Region::Boundary { x: 3, y: 1 },
            Region::Span {
                start_x: 1,
                end_x: 3,
                y: 1,
            },
            Region::Boundary { x: 0, y: 2 },
            Region::Boundary { x: 2, y: 2 },
            Region::Span {
                start_x: 1,
                end_x: 2,
                y: 2,
            },
            Region::Boundary { x: 0, y: 3 },
            Region::Boundary { x: 1, y: 3 },
            Region::Boundary { x: 0, y: 4 }
        ]
    );
}

#[test]
fn inverted_triangle_regions() {
    let regions = regions_of(&[
        PathCmd::LineTo(0.0, 3.0),
        PathCmd::LineTo(4.0, 3.0),
        PathCmd::LineTo(2.0, 0.0),
        PathCmd::LineTo(0.0, 3.0),
    ]);
    assert_eq!(
        regions,
        vec![
            Region::Boundary { x: 1, y: 0 },
            Region::Boundary { x: 2, y: 0 },
            Region::Boundary { x: 0, y: 1 },
            Region::Boundary { x: 1, y: 1 },
            Region::Boundary { x: 2, y: 1 },
            Region::Boundary { x: 3, y: 1 },
            Region::Boundary { x: 0, y: 2 },
            Region::Boundary { x: 3, y: 2 },
            Region::Span {
                start_x: 1,
                end_x: 3,
                y: 2,
            },
        ]
    );
}

#[test]
fn quadrilateral_regions() {
    let regions = regions_of(&[
        PathCmd::MoveTo(3.0, 2.0),
        PathCmd::LineTo(6.0, 4.0),
        PathCmd::LineTo(4.0, 7.0),
        PathCmd::LineTo(1.0, 5.0),
        PathCmd::LineTo(3.0, 2.0),
    ]);
    assert_eq!(
        regions,
        vec![
            Region::Boundary { x: 2, y: 2 },
            Region::Boundary { x: 3, y: 2 },
            Region::Boundary { x: 4, y: 2 },
            Region::Boundary { x: 1, y: 3 },
            Region::Boundary { x: 2, y: 3 },
            Region::Boundary { x: 4, y: 3 },
            Region::Span {
                start_x: 3,
                end_x: 4,
                y: 3
            },
            Region::Boundary { x: 5, y: 3 },
            Region::Boundary { x: 1, y: 4 },
            Region::Boundary { x: 5, y: 4 },
            Region::Span {
                start_x: 2,
                end_x: 5,
                y: 4
            },
            Region::Boundary { x: 1, y: 5 },
            Region::Boundary { x: 2, y: 5 },
            Region::Boundary { x: 4, y: 5 },
            Region::Span {
                start_x: 3,
                end_x: 4,
                y: 5
            },
            Region::Boundary { x: 5, y: 5 },
            Region::Boundary { x: 2, y: 6 },
            Region::Boundary { x: 3, y: 6 },
            Region::Boundary { x: 4, y: 6 }
        ]
    );
}

#[test]
fn irregular_regions() {
    let regions = regions_of(&[
        PathCmd::LineTo(6.18, 5.22),
        PathCmd::LineTo(5.06, 1.07),
        PathCmd::LineTo(2.33, 2.75),
        PathCmd::LineTo(1.69, 6.31),
        PathCmd::LineTo(6.18, 5.22),
    ]);
    assert_eq!(
        regions,
        vec![
            Region::Boundary { x: 3, y: 1 },
            Region::Boundary { x: 4, y: 1 },
            Region::Boundary { x: 5, y: 1 },
            Region::Boundary { x: 2, y: 2 },
            Region::Boundary { x: 3, y: 2 },
            Region::Boundary { x: 5, y: 2 },
            Region::Span {
                start_x: 4,
                end_x: 5,
                y: 2
            },
            Region::Boundary { x: 2, y: 3 },
            Region::Boundary { x: 5, y: 3 },
            Region::Span {
                start_x: 3,
                end_x: 5,
                y: 3
            },
            Region::Boundary { x: 1, y: 4 },
            Region::Boundary { x: 2, y: 4 },
            Region::Boundary { x: 5, y: 4 },
            Region::Span {
                start_x: 3,
                end_x: 5,
                y: 4
            },
            Region::Boundary { x: 6, y: 4 },
            Region::Boundary { x: 1, y: 5 },
            Region::Boundary { x: 2, y: 5 },
            Region::Boundary { x: 3, y: 5 },
            Region::Boundary { x: 4, y: 5 },
            Region::Boundary { x: 5, y: 5 },
            Region::Boundary { x: 6, y: 5 },
            Region::Boundary { x: 1, y: 6 },
            Region::Boundary { x: 2, y: 6 }
        ]
    );
}

#[test]
fn irregular_regions_2() {
    let regions = regions_of(&[
        PathCmd::LineTo(8.83, 7.46),
        PathCmd::LineTo(7.23, 1.53),
        PathCmd::LineTo(3.33, 3.93),
        PathCmd::LineTo(2.42, 9.02),
        PathCmd::LineTo(8.83, 7.46),
    ]);
    assert_eq!(
        regions,
        vec![
            Region::Boundary { x: 6, y: 1 },
            Region::Boundary { x: 7, y: 1 },
            Region::Boundary { x: 4, y: 2 },
            Region::Boundary { x: 5, y: 2 },
            Region::Boundary { x: 6, y: 2 },
            Region::Boundary { x: 7, y: 2 },
            Region::Boundary { x: 3, y: 3 },
            Region::Boundary { x: 4, y: 3 },
            Region::Boundary { x: 7, y: 3 },
            Region::Span {
                start_x: 5,
                end_x: 7,
                y: 3
            },
            Region::Boundary { x: 3, y: 4 },
            Region::Boundary { x: 7, y: 4 },
            Region::Span {
                start_x: 4,
                end_x: 7,
                y: 4
            },
            Region::Boundary { x: 8, y: 4 },
            Region::Boundary { x: 2, y: 5 },
            Region::Boundary { x: 3, y: 5 },
            Region::Boundary { x: 8, y: 5 },
            Region::Span {
                start_x: 4,
                end_x: 8,
                y: 5
            },
            Region::Boundary { x: 2, y: 6 },
            Region::Boundary { x: 8, y: 6 },
            Region::Span {
                start_x: 3,
                end_x: 8,
                y: 6
            },
            Region::Boundary { x: 2, y: 7 },
            Region::Boundary { x: 6, y: 7 },
            Region::Span {
                start_x: 3,
                end_x: 6,
                y: 7
            },
            Region::Boundary { x: 7, y: 7 },
            Region::Boundary { x: 8, y: 7 },
            Region::Boundary { x: 2, y: 8 },
            Region::Boundary { x: 3, y: 8 },
            Region::Boundary { x: 4, y: 8 },
            Region::Boundary { x: 5, y: 8 },
            Region::Boundary { x: 6, y: 8 },
            Region::Boundary { x: 2, y: 9 }
        ]
    );
}

#[test]
fn self_intersecting_pyramid() {
    let regions = regions_of(&[
        PathCmd::LineTo(3.0, 5.0),
        PathCmd::LineTo(5.0, 9.0),
        PathCmd::LineTo(7.0, 2.0),
        PathCmd::LineTo(9.0, 9.0),
        PathCmd::LineTo(11.0, 5.0),
        PathCmd::LineTo(3.0, 5.0),
    ]);
    assert_eq!(
        regions,
        vec![
            Boundary { x: 6, y: 2 },
            Boundary { x: 7, y: 2 },
            Boundary { x: 6, y: 3 },
            Boundary { x: 7, y: 3 },
            Boundary { x: 6, y: 4 },
            Boundary { x: 7, y: 4 },
            Boundary { x: 3, y: 5 },
            Boundary { x: 5, y: 5 },
            Span {
                start_x: 4,
                end_x: 5,
                y: 5
            },
            Boundary { x: 6, y: 5 },
            Boundary { x: 7, y: 5 },
            Boundary { x: 8, y: 5 },
            Boundary { x: 10, y: 5 },
            Span {
                start_x: 9,
                end_x: 10,
                y: 5
            },
            Boundary { x: 3, y: 6 },
            Boundary { x: 5, y: 6 },
            Span {
                start_x: 4,
                end_x: 5,
                y: 6
            },
            Boundary { x: 8, y: 6 },
            Boundary { x: 10, y: 6 },
            Span {
                start_x: 9,
                end_x: 10,
                y: 6
            },
            Boundary { x: 4, y: 7 },
            Boundary { x: 5, y: 7 },
            Boundary { x: 8, y: 7 },
            Boundary { x: 9, y: 7 },
            Boundary { x: 4, y: 8 },
            Boundary { x: 5, y: 8 },
            Boundary { x: 8, y: 8 },
            Boundary { x: 9, y: 8 }
        ]
    );
}

#[test]
fn low_res_circle() {
    let regions = regions_of(&[
        PathCmd::LineTo(5., 0.),
        PathCmd::LineTo(0.67, 2.5),
        PathCmd::LineTo(0.67, 7.5),
        PathCmd::LineTo(5., 10.),
        PathCmd::LineTo(9.33, 7.5),
        PathCmd::LineTo(9.33, 2.5),
        PathCmd::LineTo(5., 0.),
    ]);
    assert_eq!(
        regions,
        vec![
            Boundary { x: 3, y: 0 },
            Boundary { x: 4, y: 0 },
            Boundary { x: 5, y: 0 },
            Boundary { x: 6, y: 0 },
            Boundary { x: 1, y: 1 },
            Boundary { x: 2, y: 1 },
            Boundary { x: 3, y: 1 },
            Boundary { x: 6, y: 1 },
            Span {
                start_x: 4,
                end_x: 6,
                y: 1
            },
            Boundary { x: 7, y: 1 },
            Boundary { x: 8, y: 1 },
            Boundary { x: 0, y: 2 },
            Boundary { x: 1, y: 2 },
            Boundary { x: 8, y: 2 },
            Span {
                start_x: 2,
                end_x: 8,
                y: 2,
            },
            Boundary { x: 9, y: 2 },
            Boundary { x: 0, y: 3 },
            Boundary { x: 9, y: 3 },
            Span {
                start_x: 1,
                end_x: 9,
                y: 3,
            },
            Boundary { x: 0, y: 4 },
            Boundary { x: 9, y: 4 },
            Span {
                start_x: 1,
                end_x: 9,
                y: 4,
            },
            Boundary { x: 0, y: 5 },
            Boundary { x: 9, y: 5 },
            Span {
                start_x: 1,
                end_x: 9,
                y: 5,
            },
            Boundary { x: 0, y: 6 },
            Boundary { x: 9, y: 6 },
            Span {
                start_x: 1,
                end_x: 9,
                y: 6,
            },
            Boundary { x: 0, y: 7 },
            Boundary { x: 1, y: 7 },
            Boundary { x: 8, y: 7 },
            Span {
                start_x: 2,
                end_x: 8,
                y: 7,
            },
            Boundary { x: 9, y: 7 },
            Boundary { x: 1, y: 8 },
            Boundary { x: 2, y: 8 },
            Boundary { x: 3, y: 8 },
            Boundary { x: 6, y: 8 },
            Span {
                start_x: 4,
                end_x: 6,
                y: 8,
            },
            Boundary { x: 7, y: 8 },
            Boundary { x: 8, y: 8 },
            Boundary { x: 3, y: 9 },
            Boundary { x: 4, y: 9 },
            Boundary { x: 5, y: 9 },
            Boundary { x: 6, y: 9 },
        ]
    );
}

#[test]
fn subpixel_adjacency() {
    let regions = regions_of(&[
        PathCmd::LineTo(0., 0.),
        PathCmd::LineTo(0.25, 0.25),
        PathCmd::LineTo(0.5, 0.5),
        PathCmd::LineTo(0.75, 0.75),
        PathCmd::LineTo(1.0, 1.0),
        PathCmd::LineTo(5.0, 1.0),
        PathCmd::LineTo(5.0, 0.0),
    ]);
    assert_eq!(
        regions,
        vec![
            Boundary { x: 0, y: 0 },
            Boundary { x: 5, y: 0 },
            Span {
                start_x: 1,
                end_x: 5,
                y: 0
            }
        ]
    );
}

#[test]
fn double_ended_subpixel_adjacency() {
    let regions = regions_of(&[
        PathCmd::LineTo(0., 0.),
        PathCmd::LineTo(0.25, 0.25),
        PathCmd::LineTo(0.5, 0.5),
        PathCmd::LineTo(0.75, 0.75),
        PathCmd::LineTo(1.0, 1.0),
        PathCmd::LineTo(4.0, 1.0),
        PathCmd::LineTo(4.25, 0.75),
        PathCmd::LineTo(4.5, 0.5),
        PathCmd::LineTo(4.75, 0.25),
        PathCmd::LineTo(5.0, 0.0),
    ]);
    assert_eq!(
        regions,
        vec![
            Boundary { x: 0, y: 0 },
            Boundary { x: 4, y: 0 },
            Span {
                start_x: 1,
                end_x: 4,
                y: 0
            }
        ]
    );
}

#[test]
fn complex_subpixel_adjacency() {
    let regions = regions_of(&[
        PathCmd::MoveTo(0., 0.),
        PathCmd::LineTo(1.0, 0.1),
        PathCmd::LineTo(2.0, 1.0),
        PathCmd::LineTo(3.0, 1.0),
        PathCmd::LineTo(4.0, 0.5),
        PathCmd::LineTo(5.0, 1.0),
        PathCmd::LineTo(5.0, 0.0),
        PathCmd::LineTo(0., 0.),
    ]);
    assert_eq!(
        regions,
        vec![
            Boundary { x: 0, y: 0 },
            Boundary { x: 1, y: 0 },
            Boundary { x: 3, y: 0 },
            Span {
                start_x: 2,
                end_x: 3,
                y: 0
            },
            Boundary { x: 4, y: 0 },
            Boundary { x: 5, y: 0 },
        ]
    );
}

#[test]
fn simple_quadratic() {
    let regions = regions_of(&[
        PathCmd::MoveTo(0., 0.),
        PathCmd::QuadraticTo(3., 3., 2., 0.),
    ]);
    assert_eq!(
        regions,
        vec![
            Boundary { x: 0, y: 0 },
            Boundary { x: 1, y: 0 },
            Boundary { x: 2, y: 0 },
            Boundary { x: 1, y: 1 },
            Boundary { x: 2, y: 1 },
        ]
    );
}

#[test]
fn quadratic_triangle() {
    let regions = regions_of(&[
        PathCmd::MoveTo(0., 0.),
        PathCmd::QuadraticTo(0., 4., 2., 2.),
        PathCmd::LineTo(2., 0.),
    ]);
    assert_eq!(
        regions,
        vec![
            Boundary { x: 0, y: 0 },
            Boundary { x: 2, y: 0 },
            Span {
                start_x: 1,
                end_x: 2,
                y: 0
            },
            Boundary { x: 0, y: 1 },
            Boundary { x: 2, y: 1 },
            Span {
                start_x: 1,
                end_x: 2,
                y: 1
            },
            Boundary { x: 0, y: 2 },
            Boundary { x: 1, y: 2 },
        ]
    );
}

#[test]
fn cubic_triangle() {
    let regions = regions_of(&[
        PathCmd::MoveTo(0., 0.),
        PathCmd::QuadraticTo(0., 4., 2., 2.),
        PathCmd::CubicTo(2.5, 1.5, 1.5, 0.5, 2., 0.),
    ]);
    assert_eq!(
        regions,
        vec![
            Boundary { x: 0, y: 0 },
            Boundary { x: 1, y: 0 },
            Boundary { x: 0, y: 1 },
            Boundary { x: 2, y: 1 },
            Span {
                start_x: 1,
                end_x: 2,
                y: 1
            },
            Boundary { x: 0, y: 2 },
            Boundary { x: 1, y: 2 },
        ]
    );
}

#[test]
fn cubic_blob() {
    // A quadratic-plus-cubic blob that drives several crossings exactly onto
    // pixel corners: the cubic meets row 8 exactly at x = 14 and hugs the
    // column x = 13 around rows 5-7. The pixels emitted beside those corner
    // crossings are decided by the exact integer tie-breaking of the
    // fixed-point pipeline (midpoints floored, equal parameters collapsed),
    // which the builder's contract pins; the expected vector below is that
    // exact value.
    let regions = regions_of(&[
        PathCmd::MoveTo(0., 0.),
        PathCmd::QuadraticTo(0., 20., 14., 16.),
        PathCmd::CubicTo(20., 12., 8., 4., 14., 0.),
    ]);
    assert_eq!(
        regions,
        vec![
            Boundary { x: 0, y: 0 },
            Boundary { x: 12, y: 0 },
            Span {
                start_x: 1,
                end_x: 12,
                y: 0,
            },
            Boundary { x: 13, y: 0 },
            Boundary { x: 0, y: 1 },
            Boundary { x: 12, y: 1 },
            Span {
                start_x: 1,
                end_x: 12,
                y: 1,
            },
            Boundary { x: 0, y: 2 },
            Boundary { x: 12, y: 2 },
            Span {
                start_x: 1,
                end_x: 12,
                y: 2,
            },
            Boundary { x: 0, y: 3 },
            Boundary { x: 12, y: 3 },
            Span {
                start_x: 1,
                end_x: 12,
                y: 3,
            },
            Boundary { x: 0, y: 4 },
            Boundary { x: 12, y: 4 },
            Span {
                start_x: 1,
                end_x: 12,
                y: 4,
            },
            Boundary { x: 0, y: 5 },
            Boundary { x: 12, y: 5 },
            Span {
                start_x: 1,
                end_x: 12,
                y: 5,
            },
            Boundary { x: 13, y: 5 },
            Boundary { x: 0, y: 6 },
            Boundary { x: 13, y: 6 },
            Span {
                start_x: 1,
                end_x: 13,
                y: 6,
            },
            Boundary { x: 0, y: 7 },
            Boundary { x: 13, y: 7 },
            Span {
                start_x: 1,
                end_x: 13,
                y: 7,
            },
            Boundary { x: 0, y: 8 },
            Boundary { x: 1, y: 8 },
            Boundary { x: 14, y: 8 },
            Span {
                start_x: 2,
                end_x: 14,
                y: 8,
            },
            Boundary { x: 1, y: 9 },
            Boundary { x: 14, y: 9 },
            Span {
                start_x: 2,
                end_x: 14,
                y: 9,
            },
            Boundary { x: 1, y: 10 },
            Boundary { x: 14, y: 10 },
            Span {
                start_x: 2,
                end_x: 14,
                y: 10,
            },
            Boundary { x: 15, y: 10 },
            Boundary { x: 1, y: 11 },
            Boundary { x: 2, y: 11 },
            Boundary { x: 15, y: 11 },
            Span {
                start_x: 3,
                end_x: 15,
                y: 11,
            },
            Boundary { x: 2, y: 12 },
            Boundary { x: 15, y: 12 },
            Span {
                start_x: 3,
                end_x: 15,
                y: 12,
            },
            Boundary { x: 2, y: 13 },
            Boundary { x: 3, y: 13 },
            Boundary { x: 15, y: 13 },
            Span {
                start_x: 4,
                end_x: 15,
                y: 13,
            },
            Boundary { x: 3, y: 14 },
            Boundary { x: 4, y: 14 },
            Boundary { x: 15, y: 14 },
            Span {
                start_x: 5,
                end_x: 15,
                y: 14,
            },
            Boundary { x: 4, y: 15 },
            Boundary { x: 5, y: 15 },
            Boundary { x: 6, y: 15 },
            Boundary { x: 14, y: 15 },
            Span {
                start_x: 7,
                end_x: 14,
                y: 15,
            },
            Boundary { x: 15, y: 15 },
            Boundary { x: 6, y: 16 },
            Boundary { x: 7, y: 16 },
            Boundary { x: 8, y: 16 },
            Boundary { x: 9, y: 16 },
            Boundary { x: 10, y: 16 },
            Boundary { x: 11, y: 16 },
            Boundary { x: 12, y: 16 },
            Boundary { x: 13, y: 16 },
        ]
    );
}
