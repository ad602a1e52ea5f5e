//! Sub-pixel refinement, with the arithmetic that it asks for.

use std::ops::{Add, Mul, Sub};

use vectify::color::Rgba8;
use vectify::config::SubpixelConfig;
use vectify::cracks::Arc;
use vectify::lattice::GridPoint;
use vectify::quantize::{Palette, PaletteEntry};
use vectify::segment::{segment, Segmentation, OUTSIDE};
use vectify::subpixel::{local_tangent, refine, refine_arc, Freedom};
use vectify::topology::{build, Topology};

#[derive(Clone, Copy, Debug, PartialEq)]
struct Point {
    x: f64,
    y: f64,
}

fn pt(x: f64, y: f64) -> Point {
    Point { x, y }
}

impl Point {
    fn dot(self, o: Point) -> f64 {
        self.x * o.x + self.y * o.y
    }

    fn length_sq(self) -> f64 {
        self.dot(self)
    }

    fn dist(self, o: Point) -> f64 {
        (self - o).length_sq().sqrt()
    }

    fn normalized(self) -> Point {
        let l = self.length_sq().sqrt();
        if l < 1e-12 {
            pt(0.0, 0.0)
        } else {
            self * (1.0 / l)
        }
    }

    fn perp(self) -> Point {
        pt(self.y, -self.x)
    }
}

impl Add for Point {
    type Output = Point;
    fn add(self, o: Point) -> Point {
        pt(self.x + o.x, self.y + o.y)
    }
}

impl Sub for Point {
    type Output = Point;
    fn sub(self, o: Point) -> Point {
        pt(self.x - o.x, self.y - o.y)
    }
}

impl Mul<f64> for Point {
    type Output = Point;
    fn mul(self, s: f64) -> Point {
        pt(self.x * s, self.y * s)
    }
}

/// Fraction of a unit pixel covered by a half-plane whose boundary lies at
/// signed distance `t` from the pixel centre.
fn distance_to_coverage(t: f64, nx: f64, ny: f64) -> f64 {
    let c = nx.abs().max(ny.abs());
    let s = nx.abs().min(ny.abs());
    let h = (c + s) * 0.5;
    let d = (c - s) * 0.5;
    if t <= -h {
        0.0
    } else if t >= h {
        1.0
    } else if s < 1e-12 {
        (0.5 + t / c.max(1e-12)).clamp(0.0, 1.0)
    } else if t <= -d {
        (t + h) * (t + h) / (2.0 * c * s)
    } else if t <= d {
        0.5 + t / c
    } else {
        1.0 - (h - t) * (h - t) / (2.0 * c * s)
    }
}

fn coverage_to_distance(a: f64, nx: f64, ny: f64) -> f64 {
    let c = nx.abs().max(ny.abs());
    let s = nx.abs().min(ny.abs());
    let h = (c + s) * 0.5;
    let a = a.clamp(0.0, 1.0);
    if s < 1e-12 {
        return (a - 0.5) * c.max(1e-12);
    }
    let knee = s / (2.0 * c);
    if a < knee {
        (2.0 * c * s * a).sqrt() - h
    } else if a <= 1.0 - knee {
        (a - 0.5) * c
    } else {
        h - (2.0 * c * s * (1.0 - a)).sqrt()
    }
}

type Color = [f64; 3];

struct Image {
    w: u32,
    h: u32,
    data: Vec<Color>,
}

fn minus(a: Color, b: Color) -> Color {
    [a[0] - b[0], a[1] - b[1], a[2] - b[2]]
}

fn along(a: Color, b: Color) -> f64 {
    a[0] * b[0] + a[1] * b[1] + a[2] * b[2]
}

/// How far vertex `v` should move along `normal` to land on the edge between two
/// colours.
fn solve_offset(
    img: &Image,
    v: Point,
    normal: Point,
    left: Color,
    right: Color,
    cfg: &SubpixelConfig,
) -> Option<f64> {
    let diff = minus(left, right);
    let denom = along(diff, diff);
    if denom < (cfg.min_contrast as f64 / 1e9).powi(2) {
        return None;
    }
    let bx = v.x.round() as i64;
    let by = v.y.round() as i64;
    let mut samples: Vec<f64> = Vec::new();
    for (ox, oy) in [(-1i64, -1i64), (0, -1), (-1, 0), (0, 0)] {
        let (px, py) = (bx + ox, by + oy);
        if px < 0 || py < 0 || px >= img.w as i64 || py >= img.h as i64 {
            continue;
        }
        let c = img.data[(py * img.w as i64 + px) as usize];
        let u = along(minus(c, right), diff) / denom;
        let proj = [right[0] + diff[0] * u, right[1] + diff[1] * u, right[2] + diff[2] * u];
        let e = minus(c, proj);
        if along(e, e).sqrt() > 0.18 || !(0.02..=0.98).contains(&u) {
            continue;
        }
        let t = coverage_to_distance(u, normal.x, normal.y);
        let centre = pt(px as f64 + 0.5, py as f64 + 0.5);
        samples.push((centre - normal * t - v).dot(normal));
    }
    if samples.is_empty() {
        return None;
    }
    samples.sort_by(|a, b| a.partial_cmp(b).unwrap());
    let mid = samples.len() / 2;
    let s = if samples.len() % 2 == 0 {
        (samples[mid - 1] + samples[mid]) * 0.5
    } else {
        samples[mid]
    };
    let reach = cfg.max_shift as f64 / 1e9;
    Some(s.clamp(-reach, reach))
}

fn runs_on(a: Point, p: Point, b: Point) -> bool {
    let back = p - a;
    let fwd = b - p;
    back.length_sq() >= 1e-18
        && fwd.length_sq() >= 1e-18
        && back.normalized().dot(fwd.normalized()) > 0.5
}

fn apart(a: Point, b: Point) -> bool {
    (b - a).length_sq() > 1e-18
}

fn across(chord: Option<(Point, Point)>) -> Option<Point> {
    let tangent = chord.map_or(pt(1.0, 0.0), |(a, b)| (b - a).normalized());
    let normal = tangent.perp();
    (normal.length_sq() >= 1e-18).then_some(normal)
}

fn relax(a: Point, p: Point, b: Point, normal: Point) -> Option<Point> {
    let back = p - a;
    let fwd = b - p;
    if back.length_sq() > 1e-18
        && fwd.length_sq() > 1e-18
        && back.normalized().dot(fwd.normalized()) < std::f64::consts::FRAC_1_SQRT_2
    {
        return None;
    }
    let target = (a + p * 2.0 + b) * 0.25;
    Some(p + normal * (target - p).dot(normal))
}

type Seg = Segmentation<()>;

/// Label every pixel with the nearest of the colours.
fn labelled(img: &Image, colors: &[Rgba8]) -> Seg {
    let unit = |c: &Rgba8| [c.r as f64 / 255.0, c.g as f64 / 255.0, c.b as f64 / 255.0];
    let labels: Vec<u32> = img
        .data
        .iter()
        .map(|p| {
            let d = |c: &Rgba8| along(minus(unit(c), *p), minus(unit(c), *p));
            (0..colors.len())
                .min_by(|&a, &b| d(&colors[a]).partial_cmp(&d(&colors[b])).unwrap())
                .unwrap() as u32
        })
        .collect();
    let entries = colors.iter().map(|c| PaletteEntry::opaque(*c, ())).collect();
    segment(img.w, img.h, Palette { entries, alpha_slot: None }, labels, 0)
}

fn lift(t: Topology<GridPoint>) -> Topology<Point> {
    t.lift(&|p: GridPoint| pt(p.x as f64, p.y as f64))
}

/// The contours of an image, moved onto the edges its blends imply.
fn refined(img: &Image, colors: &[Rgba8], cfg: &SubpixelConfig) -> Topology<Point> {
    let seg = labelled(img, colors);
    let mut topo = lift(build(&seg));
    let (w, h) = (img.w as f64, img.h as f64);
    let inside = |p: Point| pt(p.x.clamp(0.0, w), p.y.clamp(0.0, h));
    let unit = |r: u32| {
        (r != OUTSIDE).then(|| {
            let c = seg.region_color[r as usize];
            [c.r as f64 / 255.0, c.g as f64 / 255.0, c.b as f64 / 255.0]
        })
    };
    let reach = cfg.max_shift as f64 / 1e9;
    refine(
        &runs_on,
        &apart,
        &across,
        &|sides: (u32, u32), p: Point, normal: Point| {
            let (left, right) = (unit(sides.0)?, unit(sides.1)?);
            Some(p + normal * solve_offset(img, p, normal, left, right, cfg)?)
        },
        &relax,
        &|p: Point| (p.x <= 0.0 || p.x >= w, p.y <= 0.0 || p.y >= h),
        &|sum: Point, from: Point, to: Point| sum + (to - from),
        &|node: Point, sum: Point, votes: usize, free: Freedom| {
            let d = sum * (1.0 / votes as f64);
            let x = if free.x { d.x } else { 0.0 };
            let y = if free.y { d.y } else { 0.0 };
            inside(node + pt(x, y))
        },
        &|from: Point, to: Point| inside(from + (to - from)),
        &|from: Point, to: Point| from.dist(to) <= reach,
        &|from: Point, to: Point| from + (to - from) * (reach * (1.0 - 1e-9) / from.dist(to)),
        pt(0.0, 0.0),
        &mut topo,
        cfg,
    );
    topo
}

const BLACK: Rgba8 = Rgba8 { r: 0, g: 0, b: 0, a: 255 };
const WHITE: Rgba8 = Rgba8 { r: 255, g: 255, b: 255, a: 255 };

fn painted(w: u32, h: u32, color: &dyn Fn(u32, u32) -> Color) -> Image {
    let mut data = Vec::new();
    for y in 0..h {
        for x in 0..w {
            data.push(color(x, y));
        }
    }
    Image { w, h, data }
}

/// An analytically anti-aliased half-plane: every pixel gets exactly the coverage
/// a correct rasteriser would produce.
fn render_halfplane(w: u32, h: u32, nx: f64, ny: f64, offset: f64) -> Image {
    let n = pt(nx, ny).normalized();
    painted(w, h, &|x, y| {
        let centre = pt(x as f64 + 0.5, y as f64 + 0.5);
        let v = distance_to_coverage(centre.dot(n) - offset, n.x, n.y);
        [v, v, v]
    })
}

/// Reconstruct a straight edge and report the mean absolute positional error in
/// pixels.
fn edge_error(nx: f64, ny: f64, offset: f64, enabled: bool) -> f64 {
    let img = render_halfplane(48, 48, nx, ny, offset);
    let cfg = SubpixelConfig { enabled, ..Default::default() };
    let topo = refined(&img, &[BLACK, WHITE], &cfg);
    let n = pt(nx, ny).normalized();
    let mut total = 0.0;
    let mut count = 0usize;
    for arc in &topo.arcs {
        // Skip endpoints: they are pinned to the image border.
        if arc.on_border || arc.points.len() < 5 {
            continue;
        }
        for p in &arc.points[2..arc.points.len() - 2] {
            total += (p.dot(n) - offset).abs();
            count += 1;
        }
    }
    assert!(count > 0, "no interior contour vertices found");
    total / count as f64
}

#[test]
fn an_upright_edge_is_found() {
    // A vertical edge at x = 20.3. Snapping to the pixel grid can only ever
    // answer 20.0, an error of 0.3px; the inversion should do far better.
    let raw = edge_error(1.0, 0.0, 20.3, false);
    let refined = edge_error(1.0, 0.0, 20.3, true);
    assert!(raw > 0.2, "raw crack error unexpectedly small: {raw}");
    assert!(refined < 0.02, "refined error {refined} should be near-exact (raw was {raw})");
}

#[test]
fn slanted_edges_are_found() {
    for (deg, offset) in [(15.0f64, 18.7f64), (30.0, 22.1), (45.0, 25.4), (63.0, 19.9)] {
        let th: f64 = deg.to_radians();
        let (nx, ny) = (th.cos(), th.sin());
        let raw = edge_error(nx, ny, offset, false);
        let refined = edge_error(nx, ny, offset, true);
        assert!(refined < 0.01, "{deg} deg: refined error {refined} too large (raw {raw})");
        assert!(
            refined < raw * 0.1,
            "{deg} deg: refinement did not clearly beat the raw contour ({refined} vs {raw})"
        );
    }
}

#[test]
fn a_hard_edge_stays() {
    // A hard-edged image carries no coverage information. The crack is already
    // the right answer and must not be perturbed.
    let img = painted(32, 32, &|x, _| if x < 16 { [0.0; 3] } else { [1.0; 3] });
    let topo = refined(&img, &[BLACK, WHITE], &SubpixelConfig::default());
    for arc in &topo.arcs {
        if arc.on_border {
            continue;
        }
        for p in &arc.points {
            assert!((p.x - 16.0).abs() < 1e-9, "hard edge moved to {:?}", p);
        }
    }
}

#[test]
fn the_corners_of_a_square_stay() {
    let blue = [0.1, 0.2, 0.8];
    let img = painted(64, 64, &|x, y| {
        if (16..48).contains(&x) && (16..48).contains(&y) {
            blue
        } else {
            [1.0; 3]
        }
    });
    let topo = refined(&img, &[WHITE, Rgba8::opaque(26, 51, 204)], &SubpixelConfig::default());
    for arc in &topo.arcs {
        if arc.on_border {
            continue;
        }
        for p in &arc.points {
            // Every vertex of the square's contour is an integer lattice point
            // and must still be one.
            assert!(
                (p.x - p.x.round()).abs() < 1e-9 && (p.y - p.y.round()).abs() < 1e-9,
                "hard-edged contour vertex drifted to {:?}",
                p
            );
            assert!(
                (16.0..=48.0).contains(&p.x) && (16.0..=48.0).contains(&p.y),
                "vertex {:?} left the square's boundary",
                p
            );
        }
        // The four corners must still be present, unrounded.
        for corner in [(16.0, 16.0), (48.0, 16.0), (16.0, 48.0), (48.0, 48.0)] {
            let want = pt(corner.0, corner.1);
            assert!(
                arc.points.iter().any(|p| p.dist(want) < 1e-9),
                "corner {:?} was rounded away",
                want
            );
        }
    }
}

#[test]
fn arcs_stay_on_their_nodes() {
    // Three colour bands meeting the image edge. After refinement the arcs
    // meeting at each junction must still share an identical endpoint.
    let img = painted(36, 12, &|x, _| match x / 12 {
        0 => [0.9, 0.1, 0.1],
        1 => [0.1, 0.85, 0.15],
        _ => [0.1, 0.15, 0.9],
    });
    let colors = [Rgba8::opaque(230, 26, 26), Rgba8::opaque(26, 217, 38), Rgba8::opaque(26, 38, 230)];
    let topo = refined(&img, &colors, &SubpixelConfig::default());
    for arc in &topo.arcs {
        let n = arc.points.len();
        assert!(arc.points[0].dist(topo.nodes[arc.start_node as usize]) < 1e-12);
        assert!(arc.points[n - 1].dist(topo.nodes[arc.end_node as usize]) < 1e-12);
    }
}

#[test]
fn nothing_moves_when_refinement_is_off() {
    let img = render_halfplane(24, 24, 0.8, 0.6, 15.3);
    let off = SubpixelConfig { enabled: false, ..Default::default() };
    let topo = refined(&img, &[BLACK, WHITE], &off);
    for arc in &topo.arcs {
        for p in &arc.points {
            assert_eq!((p.x.fract(), p.y.fract()), (0.0, 0.0));
        }
    }
    // The same contour is moved when it is on.
    let topo = refined(&img, &[BLACK, WHITE], &SubpixelConfig::default());
    assert!(topo.arcs.iter().any(|a| a.points.iter().any(|p| p.x.fract() != 0.0)));
}

#[test]
fn the_window_shrinks_at_a_corner() {
    let line: Vec<Point> = (0..9).map(|i| pt(i as f64, 0.0)).collect();
    let on = |v: &Vec<Point>, i, k| local_tangent(&runs_on, &apart, v, false, i, k);
    assert_eq!(on(&line, 4, 3), Some((line[1], line[7])));
    // Near an end, only as far as both sides reach.
    assert_eq!(on(&line, 2, 5), Some((line[0], line[4])));
    // At an end there is nothing on one side.
    assert_eq!(on(&line, 0, 5), Some((line[0], line[1])));
    assert_eq!(on(&line, 8, 5), Some((line[7], line[8])));
    assert_eq!(on(&vec![pt(1.0, 1.0)], 0, 5), None);
    // A right angle at vertex 4.
    let bent: Vec<Point> =
        (0..9).map(|i| if i <= 4 { pt(i as f64, 0.0) } else { pt(4.0, (i - 4) as f64) }).collect();
    assert_eq!(on(&bent, 4, 3), Some((bent[3], bent[5])));
    // A closed contour repeats its first point, which is stepped over.
    let ring: Vec<Point> = [(0, 0), (1, 0), (2, 0), (2, 1), (1, 1), (0, 1), (0, 0)]
        .iter()
        .map(|p| pt(p.0 as f64, p.1 as f64))
        .collect();
    assert_eq!(
        local_tangent(&runs_on, &apart, &ring, true, 0, 1),
        Some((ring[5], ring[1]))
    );
}

#[test]
fn unsolved_vertices_are_neither_moved_nor_used() {
    // Vertices move up by a quarter; vertex 2 has no evidence.
    let orig: Vec<Point> = (0..5).map(|i| pt(i as f64, 0.0)).collect();
    let lifted = |_: (u32, u32), p: Point, _: Point| (p.x != 2.0).then_some(pt(p.x, p.y - 0.25));
    let sink = |_: Point, p: Point, _: Point, _: Point| Some(pt(p.x, p.y - 1.0));
    let cfg = SubpixelConfig { smooth_passes: 0, ..Default::default() };
    let solved = refine_arc(&runs_on, &apart, &across, &lifted, &sink, &cfg, (0, 1), &orig, false);
    let ys: Vec<f64> = solved.iter().map(|p| p.y).collect();
    assert_eq!(ys, [-0.25, -0.25, 0.0, -0.25, -0.25]);
    // No vertex has two solved neighbours, so smoothing changes nothing.
    let cfg = SubpixelConfig { smooth_passes: 4, ..Default::default() };
    let smooth = refine_arc(&runs_on, &apart, &across, &lifted, &sink, &cfg, (0, 1), &orig, false);
    assert_eq!(smooth, solved);
    // With evidence everywhere, the inner vertices take part.
    let all = |_: (u32, u32), p: Point, _: Point| Some(pt(p.x, p.y - 0.25));
    let smooth = refine_arc(&runs_on, &apart, &across, &all, &sink, &cfg, (0, 1), &orig, false);
    let ys: Vec<f64> = smooth.iter().map(|p| p.y).collect();
    assert_eq!(ys, [-0.25, -4.25, -4.25, -4.25, -0.25]);
}

#[test]
fn nothing_moves_further_than_it_may() {
    let img = render_halfplane(24, 24, 0.8, 0.6, 15.3);
    let raw = refined(&img, &[BLACK, WHITE], &SubpixelConfig { enabled: false, ..Default::default() });
    for max_shift in [50_000_000, 300_000_000, 850_000_000] {
        let cfg = SubpixelConfig { max_shift, smooth_passes: 4, ..Default::default() };
        let topo = refined(&img, &[BLACK, WHITE], &cfg);
        let reach = max_shift as f64 / 1e9;
        let mut furthest = 0.0f64;
        for (a, b) in raw.arcs.iter().zip(&topo.arcs) {
            for (p, q) in a.points.iter().zip(&b.points) {
                assert!(p.dist(*q) <= reach, "{p:?} went to {q:?}");
                furthest = furthest.max(p.dist(*q));
            }
        }
        for (p, q) in raw.nodes.iter().zip(&topo.nodes) {
            assert!(p.dist(*q) <= reach, "node {p:?} went to {q:?}");
        }
        assert!(furthest > 0.04, "something moved");
    }
}

#[test]
fn a_move_that_is_too_long_is_cut() {
    // One arc of three points between two nodes; everything is asked to move by 3.
    let place = |x: i64| x;
    let mut topo = Topology {
        nodes: vec![place(0), place(20)],
        arcs: vec![Arc {
            points: vec![place(0), place(10), place(20)],
            start_node: 0,
            end_node: 1,
            left: 0,
            right: 1,
            loop_arc: false,
            on_border: false,
            corners: Vec::new(),
        }],
        region_rings: Vec::new(),
    };
    let by = |cap: i64, topo: &mut Topology<i64>| {
        refine(
            &|_: i64, _: i64, _: i64| true,
            &|_: i64, _: i64| true,
            &|_: Option<(i64, i64)>| Some(1i64),
            &|_: (u32, u32), p: i64, _: i64| Some(p + 3),
            &|_: i64, _: i64, _: i64, _: i64| None,
            &|_: i64| (false, false),
            &|sum: i64, from: i64, to: i64| sum + to - from,
            &|node: i64, sum: i64, _: usize, _: Freedom| node + sum,
            &|_: i64, to: i64| to,
            &|from: i64, to: i64| (to - from).abs() <= 2,
            &|from: i64, _: i64| from + cap,
            0,
            topo,
            &SubpixelConfig { iterations: 1, ..Default::default() },
        )
    };
    // A cut that does not reach far enough back leaves the point where it was.
    by(5, &mut topo);
    assert_eq!((topo.nodes.clone(), topo.arcs[0].points.clone()), (vec![0, 20], vec![0, 10, 20]));
    by(2, &mut topo);
    assert_eq!((topo.nodes.clone(), topo.arcs[0].points.clone()), (vec![2, 22], vec![2, 12, 22]));
}
