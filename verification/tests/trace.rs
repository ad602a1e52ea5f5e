#![allow(dead_code)]
//! The whole pipeline, with the arithmetic that it asks for: images in, documents
//! out, rendered back and compared.

use std::ops::{Add, AddAssign, Div, Mul, Neg, Sub};

use vectify::auto::{Outcome, Plan};
use vectify::cluster::AxisKeys;
use vectify::color::Rgba8;
use vectify::compare::{LikenessCalls, Moments, PixelCalls};
use vectify::config::{
    CornerConfig, FitConfig, Preset, SegmentConfig, SegmentMode, SubpixelConfig,
    VectorizeConfig, DEFAULT_TRANSPARENT_TOLERANCE,
};
use vectify::filter::{self, Around};
use vectify::lattice::GridPoint;
use vectify::palette::{ClusterCalls, ToneCalls};
use vectify::picker;
use vectify::profile::{derive_point_budget, profile as measure, ImageProfile};
use vectify::ranking::{better, Score};
use vectify::raster::rasterize_svg;
use vectify::search::Trial;
use vectify::segment::OUTSIDE;
use vectify::subpixel::Freedom;
use vectify::synth::{rgb, star, Scene, SceneItem, SceneShape, Turn};
use vectify::topology::build;
use vectify::trace::{BendCalls, EdgeCalls, FitCalls, Stage};

fn as_float(b: i64) -> f64 {
    b as f64 / 1e9
}

fn billionths(v: f64) -> i64 {
    (v * 1e9).round() as i64
}

type Raster = vectify::raster::Raster<[f32; 4]>;

/// Composite over an opaque background colour, yielding a fully opaque image.
/// Blending happens in gamma space to match how the alpha was almost certainly
/// produced.
fn composite_over(img: &Raster, bg: [f32; 3]) -> Raster {
    let data = img.data.iter().map(|c| on_background(*c, bg)).collect();
    Raster { width: img.width, height: img.height, data }
}

/// A pixel over an opaque background. One that is opaque itself stays as it is.
fn on_background(c: [f32; 4], bg: [f32; 3]) -> [f32; 4] {
    let a = c[3];
    [
        c[0] * a + bg[0] * (1.0 - a),
        c[1] * a + bg[1] * (1.0 - a),
        c[2] * a + bg[2] * (1.0 - a),
        1.0,
    ]
}

/// A colour as fractions.
fn to_f32(c: Rgba8) -> [f32; 4] {
    [
        c.r as f32 / 255.0,
        c.g as f32 / 255.0,
        c.b as f32 / 255.0,
        c.a as f32 / 255.0,
    ]
}

/// The nearest 8-bit colour.
fn from_f32(c: [f32; 4]) -> Rgba8 {
    let byte = |v: f32| (v.clamp(0.0, 1.0) * 255.0).round() as u8;
    Rgba8::new(byte(c[0]), byte(c[1]), byte(c[2]), byte(c[3]))
}


fn srgb_to_linear(c: f32) -> f32 {
    if c <= 0.040_45 {
        c / 12.92
    } else {
        ((c + 0.055) / 1.055).powf(2.4)
    }
}

fn linear_to_srgb(c: f32) -> f32 {
    if c <= 0.003_130_8 {
        c * 12.92
    } else {
        1.055 * c.powf(1.0 / 2.4) - 0.055
    }
}

/// CIELAB under a D65 white point.
#[derive(Clone, Copy, Debug, Default, PartialEq)]
struct Lab {
    l: f32,
    a: f32,
    b: f32,
}

impl Lab {
    /// Squared Euclidean distance in Lab. Cheap, and good enough as the inner
    /// loop of k-means clustering; CIEDE2000 is reserved for scoring.
    fn dist_sq(self, o: Lab) -> f32 {
        let dl = self.l - o.l;
        let da = self.a - o.a;
        let db = self.b - o.b;
        dl * dl + da * da + db * db
    }
}

/// Convert gamma-encoded sRGB in 0..1 to CIELAB.
fn srgb_to_lab(c: [f32; 3]) -> Lab {
    let r = srgb_to_linear(c[0]);
    let g = srgb_to_linear(c[1]);
    let b = srgb_to_linear(c[2]);

    // sRGB -> XYZ (D65), then normalise by the white point.
    let x = (0.412_456_4 * r + 0.357_576_1 * g + 0.180_437_5 * b) / 0.950_47;
    let y = 0.212_672_9 * r + 0.715_152_2 * g + 0.072_175_0 * b;
    let z = (0.019_333_9 * r + 0.119_192_0 * g + 0.950_304_1 * b) / 1.088_83;

    fn f(t: f32) -> f32 {
        const D: f32 = 6.0 / 29.0;
        if t > D * D * D {
            t.cbrt()
        } else {
            t / (3.0 * D * D) + 4.0 / 29.0
        }
    }

    let fx = f(x);
    let fy = f(y);
    let fz = f(z);
    Lab {
        l: 116.0 * fy - 16.0,
        a: 500.0 * (fx - fy),
        b: 200.0 * (fy - fz),
    }
}

fn lab_to_srgb(lab: Lab) -> [f32; 3] {
    let fy = (lab.l + 16.0) / 116.0;
    let fx = fy + lab.a / 500.0;
    let fz = fy - lab.b / 200.0;

    fn finv(t: f32) -> f32 {
        const D: f32 = 6.0 / 29.0;
        if t > D {
            t * t * t
        } else {
            3.0 * D * D * (t - 4.0 / 29.0)
        }
    }

    let x = finv(fx) * 0.950_47;
    let y = finv(fy);
    let z = finv(fz) * 1.088_83;

    let r = 3.240_454_2 * x - 1.537_138_5 * y - 0.498_531_4 * z;
    let g = -0.969_266_0 * x + 1.876_010_8 * y + 0.041_556_0 * z;
    let b = 0.055_643_4 * x - 0.204_025_9 * y + 1.057_225_2 * z;

    [
        linear_to_srgb(r).clamp(0.0, 1.0),
        linear_to_srgb(g).clamp(0.0, 1.0),
        linear_to_srgb(b).clamp(0.0, 1.0),
    ]
}

/// CIEDE2000 colour difference. This is the metric behind the headline
/// "percentage of pixels that match" score: a deltaE of roughly 1.0 is the
/// threshold of human perceptibility under ideal viewing conditions, so
/// counting pixels below a small deltaE answers the question a user actually
/// cares about ("can I see the difference?") far better than RMSE can.
fn delta_e2000(c1: Lab, c2: Lab) -> f32 {
    let (l1, a1, b1) = (c1.l as f64, c1.a as f64, c1.b as f64);
    let (l2, a2, b2) = (c2.l as f64, c2.a as f64, c2.b as f64);

    let kl = 1.0;
    let kc = 1.0;
    let kh = 1.0;

    let c1ab = (a1 * a1 + b1 * b1).sqrt();
    let c2ab = (a2 * a2 + b2 * b2).sqrt();
    let cbar = (c1ab + c2ab) / 2.0;

    let cbar7 = cbar.powi(7);
    let g = 0.5 * (1.0 - (cbar7 / (cbar7 + 25f64.powi(7))).sqrt());

    let a1p = (1.0 + g) * a1;
    let a2p = (1.0 + g) * a2;

    let c1p = (a1p * a1p + b1 * b1).sqrt();
    let c2p = (a2p * a2p + b2 * b2).sqrt();

    let h1p = if b1 == 0.0 && a1p == 0.0 {
        0.0
    } else {
        b1.atan2(a1p).to_degrees().rem_euclid(360.0)
    };
    let h2p = if b2 == 0.0 && a2p == 0.0 {
        0.0
    } else {
        b2.atan2(a2p).to_degrees().rem_euclid(360.0)
    };

    let dlp = l2 - l1;
    let dcp = c2p - c1p;

    let dhp = if c1p * c2p == 0.0 {
        0.0
    } else {
        let d = h2p - h1p;
        if d > 180.0 {
            d - 360.0
        } else if d < -180.0 {
            d + 360.0
        } else {
            d
        }
    };
    let dhp_big = 2.0 * (c1p * c2p).sqrt() * (dhp.to_radians() / 2.0).sin();

    let lbarp = (l1 + l2) / 2.0;
    let cbarp = (c1p + c2p) / 2.0;

    let hbarp = if c1p * c2p == 0.0 {
        h1p + h2p
    } else {
        let d = (h1p - h2p).abs();
        if d <= 180.0 {
            (h1p + h2p) / 2.0
        } else if h1p + h2p < 360.0 {
            (h1p + h2p + 360.0) / 2.0
        } else {
            (h1p + h2p - 360.0) / 2.0
        }
    };

    let t = 1.0 - 0.17 * (hbarp - 30.0).to_radians().cos()
        + 0.24 * (2.0 * hbarp).to_radians().cos()
        + 0.32 * (3.0 * hbarp + 6.0).to_radians().cos()
        - 0.20 * (4.0 * hbarp - 63.0).to_radians().cos();

    let dtheta = 30.0 * (-(((hbarp - 275.0) / 25.0).powi(2))).exp();
    let cbarp7 = cbarp.powi(7);
    let rc = 2.0 * (cbarp7 / (cbarp7 + 25f64.powi(7))).sqrt();

    let lbarp_m = (lbarp - 50.0).powi(2);
    let sl = 1.0 + (0.015 * lbarp_m) / (20.0 + lbarp_m).sqrt();
    let sc = 1.0 + 0.045 * cbarp;
    let sh = 1.0 + 0.015 * cbarp * t;
    let rt = -(2.0 * dtheta).to_radians().sin() * rc;

    let term_l = dlp / (kl * sl);
    let term_c = dcp / (kc * sc);
    let term_h = dhp_big / (kh * sh);

    (term_l * term_l + term_c * term_c + term_h * term_h + rt * term_c * term_h).max(0.0).sqrt()
        as f32
}

/// Cache of Lab values for an 8-bit RGB palette, so clustering and scoring do
/// not redo the cube-root heavy conversion per pixel.
struct LabCache {
    entries: Vec<Lab>,
}

impl LabCache {
    /// Builds a 32x32x32 lookup over the RGB cube. The quantisation error this
    /// introduces (about 4 levels per channel, trilinearly interpolated) is far
    /// below the deltaE thresholds we test against.
    fn new() -> Self {
        let mut entries = Vec::with_capacity(32 * 32 * 32);
        for r in 0..32 {
            for g in 0..32 {
                for b in 0..32 {
                    entries.push(srgb_to_lab([
                        r as f32 / 31.0,
                        g as f32 / 31.0,
                        b as f32 / 31.0,
                    ]));
                }
            }
        }
        LabCache { entries }
    }

    fn lookup(&self, c: [f32; 3]) -> Lab {
        let ri = (c[0].clamp(0.0, 1.0) * 31.0).round() as usize;
        let gi = (c[1].clamp(0.0, 1.0) * 31.0).round() as usize;
        let bi = (c[2].clamp(0.0, 1.0) * 31.0).round() as usize;
        self.entries[(ri * 32 + gi) * 32 + bi]
    }
}

impl Default for LabCache {
    fn default() -> Self {
        Self::new()
    }
}

const DEFAULT_RADIUS: u32 = 3;
const DEFAULT_RANGE_SIGMA: f32 = 4.0;

#[derive(Clone, Copy, Debug, PartialEq)]
struct BilateralConfig {
    /// Window radius in pixels. The spatial falloff is tied to it, so a larger
    /// radius also smooths over a wider area rather than only reaching further.
    radius: u32,
    /// Colour distance (CIELAB) at which a neighbour's weight has fallen to 61%.
    /// Differences well under this are averaged together; differences several
    /// times over it are left alone. It must sit above the noise being removed
    /// and below the contrast of the edges being kept.
    range_sigma: f32,
}

impl Default for BilateralConfig {
    fn default() -> Self {
        BilateralConfig {
            radius: DEFAULT_RADIUS,
            range_sigma: DEFAULT_RANGE_SIGMA,
        }
    }
}

/// Bilateral-filter the colour channels. Alpha is passed through untouched, so
/// callers that care about transparency should composite first.
fn bilateral(src: &Raster, cfg: &BilateralConfig) -> Raster {
    let r = cfg.radius as i64;
    let side = 2 * r + 1;
    assert!(side.checked_mul(side).is_some(), "smoothing window too large");
    assert!(src.data.len() == src.width as usize * src.height as usize, "ragged image");
    let sigma_s = (cfg.radius as f32 / 2.0).max(0.5);
    let spatial: Vec<f32> = (-r..=r)
        .flat_map(|dy| (-r..=r).map(move |dx| (dx, dy)))
        .map(|(dx, dy)| (-((dx * dx + dy * dy) as f32) / (2.0 * sigma_s * sigma_s)).exp())
        .collect();
    let inv_2sr2 = 1.0 / (2.0 * cfg.range_sigma * cfg.range_sigma);
    let lab: Vec<Lab> = src.data.iter().map(|c| srgb_to_lab([c[0], c[1], c[2]])).collect();
    filter::bilateral(
        &|acc: [f32; 4], at: usize, near: usize, cell: usize| {
            let k = spatial[cell] * (-lab[near].dist_sq(lab[at]) * inv_2sr2).exp();
            let c = src.data[near];
            [acc[0] + c[0] * k, acc[1] + c[1] * k, acc[2] + c[2] * k, acc[3] + k]
        },
        // The pixel itself always contributes with weight 1, so this cannot
        // divide by zero.
        &|acc: [f32; 4], own: [f32; 4]| {
            [acc[0] / acc[3], acc[1] / acc[3], acc[2] / acc[3], own[3]]
        },
        [0.0; 4],
        src,
        cfg.radius,
        cfg.range_sigma > 0.0,
    )
}

#[derive(Clone, Copy, Debug, Default, PartialEq)]
struct Point {
    x: f64,
    y: f64,
}

fn pt(x: f64, y: f64) -> Point {
    Point { x, y }
}

impl Point {
    const ZERO: Point = Point { x: 0.0, y: 0.0 };

    fn new(x: f64, y: f64) -> Self {
        Point { x, y }
    }

    fn length(self) -> f64 {
        self.x.hypot(self.y)
    }

    fn length_sq(self) -> f64 {
        self.x * self.x + self.y * self.y
    }

    fn dot(self, o: Point) -> f64 {
        self.x * o.x + self.y * o.y
    }

    /// 2D cross product: the z component of the equivalent 3D cross product.
    fn cross(self, o: Point) -> f64 {
        self.x * o.y - self.y * o.x
    }

    fn dist(self, o: Point) -> f64 {
        (self - o).length()
    }

    fn dist_sq(self, o: Point) -> f64 {
        (self - o).length_sq()
    }

    fn normalized(self) -> Point {
        let l = self.length();
        if l < 1e-12 {
            Point::ZERO
        } else {
            Point { x: self.x / l, y: self.y / l }
        }
    }

    /// Rotate by 90 degrees. In a y-down coordinate system this yields the
    /// leftward normal of a direction vector.
    fn perp(self) -> Point {
        Point { x: self.y, y: -self.x }
    }

    fn lerp(self, o: Point, t: f64) -> Point {
        Point {
            x: self.x + (o.x - self.x) * t,
            y: self.y + (o.y - self.y) * t,
        }
    }

    fn is_finite(self) -> bool {
        self.x.is_finite() && self.y.is_finite()
    }

    /// Round to a fixed number of decimal places. Emitting geometry through
    /// this keeps shared borders byte-identical between adjacent shapes.
    fn round_to(self, decimals: u32) -> Point {
        let f = 10f64.powi(decimals as i32);
        Point {
            x: (self.x * f).round() / f,
            y: (self.y * f).round() / f,
        }
    }
}

impl Add for Point {
    type Output = Point;
    fn add(self, o: Point) -> Point {
        Point { x: self.x + o.x, y: self.y + o.y }
    }
}

impl AddAssign for Point {
    fn add_assign(&mut self, o: Point) {
        self.x += o.x;
        self.y += o.y;
    }
}

impl Sub for Point {
    type Output = Point;
    fn sub(self, o: Point) -> Point {
        Point { x: self.x - o.x, y: self.y - o.y }
    }
}

impl Mul<f64> for Point {
    type Output = Point;
    fn mul(self, s: f64) -> Point {
        Point { x: self.x * s, y: self.y * s }
    }
}

impl Div<f64> for Point {
    type Output = Point;
    fn div(self, s: f64) -> Point {
        Point { x: self.x / s, y: self.y / s }
    }
}

impl Neg for Point {
    type Output = Point;
    fn neg(self) -> Point {
        Point { x: -self.x, y: -self.y }
    }
}

/// Perpendicular distance from p to the infinite line through a and b.
fn dist_point_line(p: Point, a: Point, b: Point) -> f64 {
    let d = b - a;
    let l = d.length();
    if l < 1e-12 {
        return p.dist(a);
    }
    ((p - a).cross(d) / l).abs()
}

/// Distance from p to the finite segment a-b.
fn dist_point_segment(p: Point, a: Point, b: Point) -> f64 {
    let d = b - a;
    let l2 = d.length_sq();
    if l2 < 1e-24 {
        return p.dist(a);
    }
    let t = ((p - a).dot(d) / l2).clamp(0.0, 1.0);
    p.dist(a + d * t)
}

/// Signed turn angle at b along a -> b -> c, in radians within [-pi, pi].
fn turn_angle(a: Point, b: Point, c: Point) -> f64 {
    let u = b - a;
    let v = c - b;
    if u.length_sq() < 1e-24 || v.length_sq() < 1e-24 {
        return 0.0;
    }
    u.cross(v).atan2(u.dot(v))
}

/// Shoelace area of a closed polygon. Our left-hand-rule contour tracer
/// produces negative area for outer boundaries in y-down space, positive for
/// holes.
fn polygon_area(pts: &[Point]) -> f64 {
    if pts.len() < 3 {
        return 0.0;
    }
    let mut acc = 0.0;
    for i in 0..pts.len() {
        let a = pts[i];
        let b = pts[(i + 1) % pts.len()];
        acc += a.cross(b);
    }
    acc * 0.5
}

// ---------------------------------------------------------------------------
// Path model
// ---------------------------------------------------------------------------

type Seg = vectify::path::Seg<Point, f64>;
type SubPath = vectify::path::SubPath<Point, f64>;

/// Flatten a subpath to a polyline, for DXF export. The points of each curve
/// are computed here; the library strings them together.
fn flatten(sp: &SubPath, tol: f64) -> Vec<Point> {
    let mut cur = sp.start;
    let mut curves = Vec::with_capacity(sp.segs.len());
    for seg in &sp.segs {
        let mut pts = Vec::new();
        match *seg {
            Seg::Line { .. } => {}
            Seg::Cubic { c1, c2, to } => flatten_cubic(cur, c1, c2, to, tol, &mut pts),
            Seg::Arc { r, large, sweep, to } => {
                let mut from = cur;
                for c in arc_to_cubics(cur, r, large, sweep, to) {
                    flatten_cubic(from, c.0, c.1, c.2, tol, &mut pts);
                    from = c.2;
                }
            }
        }
        cur = seg.end();
        curves.push(pts);
    }
    sp.flatten(&curves)
}

fn eval_cubic(p0: Point, p1: Point, p2: Point, p3: Point, t: f64) -> Point {
    let mt = 1.0 - t;
    let a = mt * mt * mt;
    let b = 3.0 * mt * mt * t;
    let c = 3.0 * mt * t * t;
    let d = t * t * t;
    Point {
        x: a * p0.x + b * p1.x + c * p2.x + d * p3.x,
        y: a * p0.y + b * p1.y + c * p2.y + d * p3.y,
    }
}

fn cubic_tangent(p0: Point, p1: Point, p2: Point, p3: Point, t: f64) -> Point {
    let mt = 1.0 - t;
    (p1 - p0) * (3.0 * mt * mt) + (p2 - p1) * (6.0 * mt * t) + (p3 - p2) * (3.0 * t * t)
}

fn flatten_cubic(p0: Point, p1: Point, p2: Point, p3: Point, tol: f64, out: &mut Vec<Point>) {
    // Wang's formula for the subdivision count that keeps the polyline within
    // tol of the curve.
    let d1 = (p0 - p1 * 2.0 + p2).length();
    let d2 = (p1 - p2 * 2.0 + p3).length();
    let m = d1.max(d2);
    let n = if m <= 0.0 {
        1
    } else {
        (((6.0 * m) / (8.0 * tol.max(1e-6))).sqrt().ceil() as usize).clamp(1, 256)
    };
    for i in 1..=n {
        out.push(eval_cubic(p0, p1, p2, p3, i as f64 / n as f64));
    }
}

/// Convert a circular arc into up to four cubic Beziers, each spanning at most
/// a quarter turn.
fn arc_to_cubics(
    from: Point,
    r: f64,
    large: bool,
    sweep: bool,
    to: Point,
) -> Vec<(Point, Point, Point)> {
    let chord = to - from;
    let d = chord.length();
    let mut out = Vec::new();
    if d < 1e-12 {
        return out;
    }
    let r = r.abs().max(d / 2.0);
    let h = (r * r - d * d / 4.0).max(0.0).sqrt();
    let mid = from.lerp(to, 0.5);
    // The perpendicular offset selects which of the two candidate centres the
    // large/sweep flag combination asks for. Both candidates put the endpoints
    // on a circle of radius r, so only the flag semantics distinguish them --
    // which is why a sign error here is invisible to a "points lie on the
    // circle" check and has to be tested against the sweep directly.
    // Derived from the SVG endpoint-to-centre conversion: the offset is
    // positive along perp(chord) exactly when the two flags agree.
    let n = chord.perp().normalized();
    let sign = if large == sweep { 1.0 } else { -1.0 };
    let centre = mid + n * (h * sign);

    let a0 = (from.y - centre.y).atan2(from.x - centre.x);
    let a1 = (to.y - centre.y).atan2(to.x - centre.x);
    let mut sweep_angle = a1 - a0;
    // In y-down space the SVG sweep flag corresponds to increasing angle.
    if sweep && sweep_angle < 0.0 {
        sweep_angle += std::f64::consts::TAU;
    }
    if !sweep && sweep_angle > 0.0 {
        sweep_angle -= std::f64::consts::TAU;
    }

    let n_seg = ((sweep_angle.abs() / std::f64::consts::FRAC_PI_2).ceil() as usize).max(1);
    let delta = sweep_angle / n_seg as f64;
    let k = (4.0 / 3.0) * (delta / 4.0).tan();
    let mut theta = a0;
    for _ in 0..n_seg {
        let t1 = theta + delta;
        let p0 = Point::new(centre.x + r * theta.cos(), centre.y + r * theta.sin());
        let p3 = Point::new(centre.x + r * t1.cos(), centre.y + r * t1.sin());
        let d0 = Point::new(-theta.sin(), theta.cos()) * (r * k);
        let d1 = Point::new(-t1.sin(), t1.cos()) * (r * k);
        out.push((p0 + d0, p3 - d1, p3));
        theta = t1;
    }
    if let Some(last) = out.last_mut() {
        last.2 = to;
    }
    out
}

/// A random number as a fraction, below 1.
fn unit(draw: u64) -> f32 {
    ((draw >> 40) as f32) / ((1u32 << 24) as f32)
}

/// An integer that orders like the float.
fn order_key(v: f32) -> i64 {
    // Zero has two representations; both are the same colour.
    let bits = if v == 0.0 { 0 } else { v.to_bits() as i32 };
    (if bits < 0 { i32::MIN ^ !bits } else { bits }) as i64
}

/// The float that [`order_key`] made a key of.
fn from_key(key: i64) -> f32 {
    let k = key as i32;
    f32::from_bits((if k < 0 { i32::MIN ^ !k } else { k }) as u32)
}

/// Weight in 0..1 measuring how much a pixel should influence palette selection.
/// Flat interiors score near 1, anti-aliased edges near 0.
fn flatness(a: Around<[f32; 4]>) -> f32 {
    // Sobel-style gradient magnitude over the three colour channels.
    let mut grad = 0.0f32;
    for ch in 0..3 {
        let gx = -a.nw[ch] - 2.0 * a.w[ch] - a.sw[ch] + a.ne[ch] + 2.0 * a.e[ch] + a.se[ch];
        let gy = -a.nw[ch] - 2.0 * a.n[ch] - a.ne[ch] + a.sw[ch] + 2.0 * a.s[ch] + a.se[ch];
        grad = grad.max((gx * gx + gy * gy).sqrt() * 0.25);
    }
    // A gradient of ~0.15 per pixel already means a visible edge.
    (-(grad / 0.12).powi(2)).exp()
}

fn luma(c: [f32; 4]) -> f32 {
    0.2126 * c[0] + 0.7152 * c[1] + 0.0722 * c[2]
}

/// A weighted sum of Lab colours.
#[derive(Clone, Copy, Default)]
struct LabSum {
    l: f64,
    a: f64,
    b: f64,
    w: f64,
}
impl LabSum {
    fn plus(self, lab: Lab, w: f32) -> LabSum {
        let w = w as f64;
        LabSum {
            l: self.l + lab.l as f64 * w,
            a: self.a + lab.a as f64 * w,
            b: self.b + lab.b as f64 * w,
            w: self.w + w,
        }
    }

    fn mean(self) -> Option<Lab> {
        (self.w > 1e-9).then(|| Lab {
            l: (self.l / self.w) as f32,
            a: (self.a / self.w) as f32,
            b: (self.b / self.w) as f32,
        })
    }
}

/// What splitting an image into two tones asks of the numbers.
fn tone_calls(
    cache: &LabCache,
) -> ToneCalls<
    [f64; 4],
    impl Fn([f32; 4]) -> Option<u8>,
    impl Fn(u64, u64, u64, u64) -> u64,
    impl Fn(i64) -> f64,
    impl Fn(Option<usize>) -> f64,
    impl Fn(f64, [f32; 4]) -> bool,
    impl Fn([f64; 4], [f32; 4]) -> [f64; 4],
    impl Fn([f64; 4], bool) -> (Rgba8, Lab) + '_,
> {
    ToneCalls {
        // Weight by alpha so a transparent border does not drag the split.
        bin: |c: [f32; 4]| {
            (c[3] >= 0.5).then(|| (luma(c).clamp(0.0, 1.0) * 255.0).round() as u8)
        },
        variance: |w_b: u64, w_f: u64, sum_b: u64, sum_f: u64| {
            let m_b = sum_b as f64 / w_b as f64;
            let m_f = sum_f as f64 / w_f as f64;
            (w_b as f64 * w_f as f64 * (m_b - m_f) * (m_b - m_f)).to_bits()
        },
        given: as_float,
        found: |split: Option<usize>| split.map_or(0.5, |t| t as f64 / 255.0),
        light: |level: f64, c: [f32; 4]| luma(c) as f64 > level,
        plus: |sum: [f64; 4], c: [f32; 4]| {
            [sum[0] + c[0] as f64, sum[1] + c[1] as f64, sum[2] + c[2] as f64, sum[3] + 1.0]
        },
        finish: move |sum: [f64; 4], light: bool| {
            let c = if sum[3] < 1.0 {
                [if light { 1.0 } else { 0.0 }; 3]
            } else {
                [(sum[0] / sum[3]) as f32, (sum[1] / sum[3]) as f32, (sum[2] / sum[3]) as f32]
            };
            (from_f32([c[0], c[1], c[2], 1.0]), cache.lookup(c))
        },
        zero: [0.0; 4],
    }
}

/// What clustering asks of the numbers. A point is a colour with its weight.
fn cluster_calls() -> ClusterCalls<
    f32,
    f64,
    LabSum,
    impl Fn(Around<[f32; 4]>) -> f32,
    impl Fn([f32; 4], f32) -> (Lab, f32),
    impl Fn((Lab, f32)) -> Lab,
    impl Fn((Lab, f32)) -> AxisKeys,
    impl Fn((Lab, f32), Lab) -> u32,
    impl Fn(f64, u32, (Lab, f32)) -> f64,
    impl Fn(f64) -> bool,
    impl Fn(f64, u64) -> f64,
    impl Fn(f64, u32, (Lab, f32)) -> f64,
    impl Fn(f64) -> bool,
    impl Fn(LabSum, (Lab, f32)) -> LabSum,
    impl Fn(LabSum) -> Option<Lab>,
    impl Fn(usize, AxisKeys, AxisKeys) -> u32,
    impl Fn(LabSum) -> Lab,
    impl Fn(Lab) -> Rgba8,
> {
    let part = |gap: u32, p: (Lab, f32)| f32::from_bits(gap) as f64 * p.1 as f64;
    ClusterCalls {
        flat: flatness,
        full: 1.0,
        point: |c: [f32; 4], w: f32| (srgb_to_lab([c[0], c[1], c[2]]), w.max(1e-4)),
        lab: |p: (Lab, f32)| p.0,
        axes: |p: (Lab, f32)| AxisKeys {
            l: order_key(p.0.l),
            a: order_key(p.0.a),
            b: order_key(p.0.b),
        },
        // The bits of a non-negative float order like it.
        dist: |p: (Lab, f32), c: Lab| p.0.dist_sq(c).to_bits(),
        weigh: move |mass: f64, gap: u32, p: (Lab, f32)| mass + part(gap, p),
        heavy: |mass: f64| mass > 1e-9,
        aim: |mass: f64, draw: u64| unit(draw) as f64 * mass,
        spend: move |left: f64, gap: u32, p: (Lab, f32)| left - part(gap, p),
        spent: |left: f64| left <= 0.0,
        none: 0.0,
        plus: |sum: LabSum, p: (Lab, f32)| sum.plus(p.0, p.1),
        zero: LabSum::default(),
        mean: |sum: LabSum| sum.mean(),
        gap: |axis: usize, lo: AxisKeys, hi: AxisKeys| {
            let on = |k: AxisKeys| from_key([k.l, k.a, k.b][axis]);
            (on(hi) - on(lo)).max(0.0).to_bits()
        },
        settle: |sum: LabSum| sum.mean().unwrap_or_default(),
        floor: 1e-4f32.to_bits(),
        color: |lab: Lab| {
            let rgb = lab_to_srgb(lab);
            from_f32([rgb[0], rgb[1], rgb[2], 1.0])
        },
    }
}

type Segmentation = vectify::segment::Segmentation<Lab>;

/// Segment an image, and measure the colour of every region.
fn segment_image(img: &Raster, cfg: &SegmentConfig, cache: &LabCache) -> Segmentation {
    let corners = (img.width as u128 + 1) * (img.height as u128 + 1);
    assert!(
        2 * corners < u32::MAX as u128 && 4 * corners <= usize::MAX as u128,
        "image too large to trace"
    );
    assert!(
        cfg.colors.max(2) as u128 + (cfg.transparent_colors.len() as u128) < u32::MAX as u128,
        "palette too large"
    );
    assert!(img.data.len() == img.width as usize * img.height as usize, "ragged image");
    let alpha = as_float(cfg.alpha_threshold) as f32;
    let tolerance_sq = (as_float(cfg.transparent_tolerance) as f32).max(0.0).powi(2);
    vectify::regions::segment_image(
        &|c: [f32; 4]| c[3] <= alpha,
        &tone_calls(cache),
        &cluster_calls(),
        // Exact Lab, not the 5-bit lookup cache: a key is a single colour the user
        // typed, and the cache's quantisation would move the tolerance circle by a
        // couple of units.
        &|k: Rgba8| {
            let c = to_f32(k);
            srgb_to_lab([c[0], c[1], c[2]])
        },
        &|entry: Lab, key: Lab| entry.dist_sq(key) <= tolerance_sq,
        &|c: [f32; 4]| cache.lookup([c[0], c[1], c[2]]),
        // The bits of a non-negative float order like it.
        &|a: Lab, b: Lab| a.dist_sq(b).to_bits(),
        &|sum: [f64; 5], p: ([f32; 4], f32)| {
            let c = p.0;
            // Add a floor to the weight so a region made entirely of edge pixels
            // still gets a colour rather than dividing by zero.
            let w = (p.1 as f64).max(0.02);
            [
                sum[0] + c[0] as f64 * w,
                sum[1] + c[1] as f64 * w,
                sum[2] + c[2] as f64 * w,
                sum[3] + c[3] as f64 * w,
                sum[4] + w,
            ]
        },
        &|a: [f64; 5]| {
            (a[4] >= 1e-9).then(|| {
                let part = |i: usize| (a[i] / a[4]) as f32;
                from_f32([part(0), part(1), part(2), part(3)])
            })
        },
        [0.0f64; 5],
        img,
        cfg,
        Lab::default(),
    )
}

/// The image a trace made with `cfg` should be scored against. Borrows when
/// nothing is keyed, so the common case costs nothing.
fn scoring_reference<'a>(
    img: &'a Raster,
    cfg: &SegmentConfig,
    cache: &LabCache,
) -> std::borrow::Cow<'a, Raster> {
    let tolerance_sq = (as_float(cfg.transparent_tolerance) as f32).max(0.0).powi(2);
    let lab = |c: [f32; 4]| cache.lookup([c[0], c[1], c[2]]);
    let reference = vectify::segment::scoring_reference(
        &|k: Rgba8| lab(to_f32(k)),
        &lab,
        &|key: Lab, c: Lab| key.dist_sq(c) <= tolerance_sq,
        &|c: [f32; 4]| [c[0], c[1], c[2], 0.0],
        img,
        &cfg.transparent_colors,
    );
    match reference {
        Some(r) => std::borrow::Cow::Owned(r),
        None => std::borrow::Cow::Borrowed(img),
    }
}

/// The signed distance from a pixel centre
/// to the edge that would produce coverage `a`.
///
/// This is the single most important function in the engine. Everything else is
/// bookkeeping around the fact that this inversion is exact.
fn coverage_to_distance(a: f64, nx: f64, ny: f64) -> f64 {
    let c = nx.abs().max(ny.abs());
    let s = nx.abs().min(ny.abs());
    let h = (c + s) * 0.5;
    let a = a.clamp(0.0, 1.0);
    if s < 1e-12 {
        return (a - 0.5) * c.max(1e-12);
    }
    // Coverage at the knee where the cut stops clipping a corner triangle and
    // starts clipping a trapezoid.
    let knee = s / (2.0 * c);
    if a < knee {
        (2.0 * c * s * a).sqrt() - h
    } else if a <= 1.0 - knee {
        (a - 0.5) * c
    } else {
        h - (2.0 * c * s * (1.0 - a)).sqrt()
    }
}

/// Premultiplied RGBA. Coverage blending is linear in premultiplied space even
/// when alpha varies, so a shape fading out over a transparent background
/// inverts with the same maths as an opaque one.
fn premul(c: [f32; 4]) -> [f64; 4] {
    let a = c[3] as f64;
    [c[0] as f64 * a, c[1] as f64 * a, c[2] as f64 * a, a]
}

fn premul8(c: Rgba8) -> [f64; 4] {
    premul(to_f32(c))
}

fn sub4(a: [f64; 4], b: [f64; 4]) -> [f64; 4] {
    [a[0] - b[0], a[1] - b[1], a[2] - b[2], a[3] - b[3]]
}

fn dot4(a: [f64; 4], b: [f64; 4]) -> f64 {
    a[0] * b[0] + a[1] * b[1] + a[2] * b[2] + a[3] * b[3]
}

/// Whether a contour runs on through `p` without a corner: it turns by less
/// than 60 degrees or so.
fn runs_on(a: Point, p: Point, b: Point) -> bool {
    let back = p - a;
    let fwd = b - p;
    back.length_sq() >= 1e-18
        && fwd.length_sq() >= 1e-18
        && back.normalized().dot(fwd.normalized()) > 0.5
}

/// The direction across a chord.
fn across(chord: Option<(Point, Point)>) -> Option<Point> {
    let tangent = chord.map_or(Point::new(1.0, 0.0), |(a, b)| (b - a).normalized());
    let normal = tangent.perp();
    (normal.length_sq() >= 1e-18).then_some(normal)
}

/// Damp the jitter of a refined vertex. It may only move across the edge, never
/// along it, and a bend this sharp is geometry, not jitter.
fn settle_jitter(a: Point, p: Point, b: Point, normal: Point) -> Option<Point> {
    let back = p - a;
    let fwd = b - p;
    if back.length_sq() > 1e-18 && fwd.length_sq() > 1e-18 {
        let cosang = back.normalized().dot(fwd.normalized());
        if cosang < std::f64::consts::FRAC_1_SQRT_2 {
            return None;
        }
    }
    let target = (a + p * 2.0 + b) * 0.25;
    Some(p + normal * (target - p).dot(normal))
}

/// Estimate how far vertex `v` should move along `normal` to land on the true
/// edge between colours `pm_l` (left) and `pm_r` (right).
///
/// Returns `None` when the local pixels carry no usable coverage evidence: a
/// genuinely hard edge, a third colour intruding, or too little contrast. In
/// all of those cases the crack position is already the best answer available
/// and the vertex should stay put.
fn solve_offset(
    img: &Raster,
    v: Point,
    normal: Point,
    pm_l: [f64; 4],
    pm_r: [f64; 4],
    cfg: &SubpixelConfig,
) -> Option<f64> {
    let diff = sub4(pm_l, pm_r);
    let denom = dot4(diff, diff);
    if denom < as_float(cfg.min_contrast).powi(2) {
        return None;
    }

    // The four pixels sharing this lattice corner. An edge passing through the
    // vertex must clip at least one of them.
    let bx = v.x.round() as i64;
    let by = v.y.round() as i64;
    let mut samples: Vec<f64> = Vec::with_capacity(4);

    for (ox, oy) in [(-1i64, -1i64), (0, -1), (-1, 0), (0, 0)] {
        let px = bx + ox;
        let py = by + oy;
        if px < 0 || py < 0 || px >= img.width as i64 || py >= img.height as i64 {
            continue;
        }
        let pm = premul(img.get(px as u32, py as u32));
        let rel = sub4(pm, pm_r);
        let u = dot4(rel, diff) / denom;

        // Reject pixels that are not on the line between the two colours: a
        // third region leaking in, or noise. Without this guard a junction
        // between three colours drags edges toward whichever colour happens to
        // be nearby.
        let resid = {
            let proj = [
                pm_r[0] + diff[0] * u,
                pm_r[1] + diff[1] * u,
                pm_r[2] + diff[2] * u,
                pm_r[3] + diff[3] * u,
            ];
            let e = sub4(pm, proj);
            dot4(e, e).sqrt()
        };
        if resid > 0.18 {
            continue;
        }
        // Fully covered pixels carry no positional information; they only say
        // the edge is somewhere beyond them.
        if !(0.02..=0.98).contains(&u) {
            continue;
        }

        let t = coverage_to_distance(u, normal.x, normal.y);
        // The edge's closest approach to this pixel centre.
        let centre = Point::new(px as f64 + 0.5, py as f64 + 0.5);
        let edge_pt = centre - normal * t;
        samples.push((edge_pt - v).dot(normal));
    }

    if samples.is_empty() {
        return None;
    }
    samples.sort_by(|a, b| a.partial_cmp(b).unwrap_or(std::cmp::Ordering::Equal));
    let mid = samples.len() / 2;
    let s = if samples.len() % 2 == 0 {
        (samples[mid - 1] + samples[mid]) * 0.5
    } else {
        samples[mid]
    };
    let reach = as_float(cfg.max_shift);
    Some(s.clamp(-reach, reach))
}

/// What moving contour vertices onto the edges that the anti-aliasing implies asks
/// of the numbers. The library decides what moves and keeps junctions together.
fn edge_calls<'a>(
    seg: &'a Segmentation,
    img: &'a Raster,
    cfg: &'a SubpixelConfig,
) -> EdgeCalls<
    Point,
    impl Fn(Point, Point, Point) -> bool,
    impl Fn(Point, Point) -> bool,
    impl Fn(Option<(Point, Point)>) -> Option<Point>,
    impl Fn((u32, u32), Point, Point) -> Option<Point> + 'a,
    impl Fn(Point, Point, Point, Point) -> Option<Point>,
    impl Fn(Point) -> (bool, bool),
    impl Fn(Point, Point, Point) -> Point,
    impl Fn(Point, Point, usize, Freedom) -> Point,
    impl Fn(Point, Point) -> Point,
    impl Fn(Point, Point) -> bool,
    impl Fn(Point, Point) -> Point,
> {
    let w = seg.width as f64;
    let h = seg.height as f64;
    let reach = as_float(cfg.max_shift);
    let inside = move |p: Point| Point::new(p.x.clamp(0.0, w), p.y.clamp(0.0, h));
    let color = move |r: u32| (r != OUTSIDE).then(|| premul8(seg.region_color[r as usize]));
    EdgeCalls {
        straight: runs_on,
        apart: |a: Point, b: Point| (b - a).length_sq() > 1e-18,
        normal: across,
        settle: move |sides: (u32, u32), p: Point, normal: Point| {
            let (pm_l, pm_r) = (color(sides.0)?, color(sides.1)?);
            Some(p + normal * solve_offset(img, p, normal, pm_l, pm_r, cfg)?)
        },
        relax: settle_jitter,
        edges: move |p: Point| (p.x <= 0.0 || p.x >= w, p.y <= 0.0 || p.y >= h),
        add: |sum: Point, from: Point, to: Point| sum + (to - from),
        shift: move |node: Point, sum: Point, votes: usize, free: Freedom| {
            let d = sum / votes as f64;
            let x = if free.x { d.x } else { 0.0 };
            let y = if free.y { d.y } else { 0.0 };
            inside(node + Point::new(x, y))
        },
        land: move |from: Point, to: Point| inside(from + (to - from)),
        within: move |from: Point, to: Point| from.dist(to) <= reach,
        // A hair short of the cap, so that rounding cannot push it past.
        cap: move |from: Point, to: Point| {
            from + (to - from) * (reach * (1.0 - 1e-9) / from.dist(to))
        },
        zero: Point::ZERO,
    }
}

const LAMBDA: f64 = 0.50;
const MU: f64 = -0.53;

/// Absolute turn angle at `p`, between a point before and a point after it.
fn turn(a: Point, p: Point, b: Point) -> Option<f64> {
    let back = p - a;
    let fwd = b - p;
    if back.length_sq() < 1e-18 || fwd.length_sq() < 1e-18 {
        return None;
    }
    let u = back.normalized();
    let v = fwd.normalized();
    Some(u.cross(v).atan2(u.dot(v)).abs())
}

/// One step of Taubin smoothing.
fn relax(a: Point, p: Point, b: Point, inflate: bool) -> Point {
    let lap = (a + b) * 0.5 - p;
    p + lap * if inflate { MU } else { LAMBDA }
}

/// What looking for corners and smoothing between them asks of the numbers. The
/// library decides which vertices are corners and what is smoothed.
fn bend_calls(
    cfg: &CornerConfig,
) -> BendCalls<
    f64,
    f64,
    impl Fn(Point, Point, Point) -> Option<f64>,
    impl Fn(f64) -> bool,
    impl Fn(f64, f64) -> f64,
    impl Fn(f64, usize) -> i64,
    impl Fn(f64, f64, f64) -> f64,
    impl Fn(Point, Point, Point, bool) -> Point,
    impl Fn(Option<(f64, usize)>) -> usize,
> {
    let threshold = as_float(cfg.threshold_deg).to_radians();
    let smoothing = as_float(cfg.smoothing);
    BendCalls {
        turn,
        sharp: move |t: f64| t >= threshold,
        gather: |sum: f64, t: f64| sum + t,
        // The bits of a non-negative float order like it.
        strength: |sum: f64, tested: usize| (sum / tested as f64).to_bits() as i64,
        jitter: |noise: f64, fine: f64, coarse: f64| {
            noise + ((fine - coarse) / std::f64::consts::FRAC_PI_2).clamp(0.0, 1.0)
        },
        relax,
        effort: move |noise: Option<(f64, usize)>| {
            let factor = match noise {
                Some((_, 0)) => 0.0,
                Some((sum, measured)) => sum / measured as f64,
                None => 1.0,
            };
            (smoothing * factor * 5.0).round().max(0.0) as usize
        },
        zero: 0.0,
        calm: 0.0,
    }
}

/// One-sided tangent at index `i`, looking `forward` or backward, averaged over
/// a few vertices so that a single noisy step does not set the direction.
fn one_sided_tangent(pts: &[Point], i: usize, forward: bool) -> Point {
    let n = pts.len();
    let mut acc = Point::ZERO;
    let mut weight = 0.0;
    for k in 1..=3usize {
        let j = if forward {
            if i + k >= n {
                break;
            }
            i + k
        } else {
            if i < k {
                break;
            }
            i - k
        };
        let d = pts[j] - pts[i];
        if d.length_sq() < 1e-18 {
            continue;
        }
        // Nearer samples describe the direction at `i` more faithfully.
        let w = 1.0 / k as f64;
        acc += d.normalized() * w;
        weight += w;
    }
    if weight <= 0.0 || acc.length_sq() < 1e-18 {
        // Degenerate: fall back to the chord across whatever exists.
        let j = if forward { n - 1 } else { 0 };
        let d = pts[j] - pts[i];
        return d.normalized();
    }
    acc.normalized()
}

/// Smooth tangent through an interior point, used where a run is split for
/// tolerance rather than at a real corner. Keeping both sides parallel here is
/// what stops the split from showing up as a visible kink.
fn centre_tangent(pts: &[Point], i: usize) -> Point {
    let a = one_sided_tangent(pts, i, false);
    let b = one_sided_tangent(pts, i, true);
    let d = b - a;
    if d.length_sq() < 1e-18 {
        b
    } else {
        d.normalized()
    }
}

fn bezier_basis(u: f64) -> [f64; 4] {
    let mu = 1.0 - u;
    [
        mu * mu * mu,
        3.0 * mu * mu * u,
        3.0 * mu * u * u,
        u * u * u,
    ]
}

/// Chord-length parameterisation, normalised to 0..1.
fn chord_params(pts: &[Point]) -> Vec<f64> {
    let mut u = Vec::with_capacity(pts.len());
    u.push(0.0);
    let mut total = 0.0;
    for i in 1..pts.len() {
        total += pts[i].dist(pts[i - 1]);
        u.push(total);
    }
    if total <= 1e-12 {
        let n = pts.len().max(2) - 1;
        return (0..pts.len()).map(|i| i as f64 / n as f64).collect();
    }
    for v in u.iter_mut() {
        *v /= total;
    }
    u
}

/// Schneider's least-squares cubic with both end tangents fixed. Solves only
/// for the two handle lengths.
fn fit_cubic_with_tangents(pts: &[Point], u: &[f64], t1: Point, t2: Point) -> (Point, Point) {
    let p0 = pts[0];
    let p3 = pts[pts.len() - 1];
    let default_alpha = p0.dist(p3) / 3.0;

    let mut c00 = 0.0;
    let mut c01 = 0.0;
    let mut c11 = 0.0;
    let mut x0 = 0.0;
    let mut x1 = 0.0;

    for (i, &p) in pts.iter().enumerate() {
        let b = bezier_basis(u[i]);
        let a0 = t1 * b[1];
        let a1 = t2 * b[2];
        c00 += a0.dot(a0);
        c01 += a0.dot(a1);
        c11 += a1.dot(a1);
        // Residual after accounting for the fixed endpoints.
        let tmp = p - (p0 * (b[0] + b[1]) + p3 * (b[2] + b[3]));
        x0 += a0.dot(tmp);
        x1 += a1.dot(tmp);
    }

    let det = c00 * c11 - c01 * c01;
    let (mut alpha_l, mut alpha_r) = if det.abs() < 1e-12 {
        (default_alpha, default_alpha)
    } else {
        (
            (x0 * c11 - x1 * c01) / det,
            (c00 * x1 - c01 * x0) / det,
        )
    };

    // Negative or vanishing handles fold the curve back on itself. Wolberg's
    // standard remedy: fall back to the chord-thirds heuristic.
    let eps = p0.dist(p3) * 1e-6;
    if !alpha_l.is_finite() || alpha_l < eps {
        alpha_l = default_alpha;
    }
    if !alpha_r.is_finite() || alpha_r < eps {
        alpha_r = default_alpha;
    }
    (p0 + t1 * alpha_l, p3 + t2 * alpha_r)
}

/// Largest distance from any sample to the curve at its own parameter, and the
/// index where it occurs.
fn cubic_max_error(pts: &[Point], u: &[f64], p0: Point, p1: Point, p2: Point, p3: Point) -> (f64, usize) {
    let mut worst = 0.0;
    let mut at = pts.len() / 2;
    for (i, &p) in pts.iter().enumerate() {
        let d = eval_cubic(p0, p1, p2, p3, u[i]).dist(p);
        if d > worst {
            worst = d;
            at = i;
        }
    }
    (worst, at)
}

/// One Newton-Raphson step per sample, moving each parameter toward the closest
/// point on the curve. Without this, chord-length parameters alone leave a fit
/// noticeably worse than the curve is capable of.
fn reparameterise(pts: &[Point], u: &[f64], p0: Point, p1: Point, p2: Point, p3: Point) -> Vec<f64> {
    pts.iter()
        .enumerate()
        .map(|(i, &p)| {
            let t = u[i];
            let q = eval_cubic(p0, p1, p2, p3, t);
            let d1 = cubic_tangent(p0, p1, p2, p3, t);
            // Second derivative of the cubic.
            let d2 = (p2 - p1 * 2.0 + p0) * (6.0 * (1.0 - t)) + (p3 - p2 * 2.0 + p1) * (6.0 * t);
            let diff = q - p;
            let num = diff.dot(d1);
            let den = d1.dot(d1) + diff.dot(d2);
            if den.abs() < 1e-12 {
                t
            } else {
                (t - num / den).clamp(0.0, 1.0)
            }
        })
        .collect()
}

/// Algebraic circle fit (Kasa), on mean-centred data for conditioning.
/// Returns centre and radius.
fn fit_circle(pts: &[Point]) -> Option<(Point, f64)> {
    let n = pts.len();
    if n < 3 {
        return None;
    }
    let mean = pts.iter().fold(Point::ZERO, |a, &b| a + b) / n as f64;
    let (mut sxx, mut syy, mut sxy, mut sxz, mut syz, mut sz) = (0.0, 0.0, 0.0, 0.0, 0.0, 0.0);
    for &p in pts {
        let x = p.x - mean.x;
        let y = p.y - mean.y;
        let z = x * x + y * y;
        sxx += x * x;
        syy += y * y;
        sxy += x * y;
        sxz += x * z;
        syz += y * z;
        sz += z;
    }
    let det = sxx * syy - sxy * sxy;
    if det.abs() < 1e-12 {
        return None; // collinear
    }
    let d = (-sxz * syy + syz * sxy) / det;
    let e = (-syz * sxx + sxz * sxy) / det;
    let f = -sz / n as f64;
    let cx = -d / 2.0;
    let cy = -e / 2.0;
    let r2 = cx * cx + cy * cy - f;
    if r2 <= 0.0 {
        return None;
    }
    Some((Point::new(cx + mean.x, cy + mean.y), r2.sqrt()))
}

/// Try to describe `pts` as a single circular arc within `tol`.
fn try_arc(pts: &[Point], tol: f64) -> Option<(f64, bool, bool)> {
    let (centre, r) = fit_circle(pts)?;
    // An enormous radius means the run is effectively straight, which the line
    // test already handles more cheaply and more stably.
    let span = pts[0].dist(pts[pts.len() - 1]);
    if r > span * 200.0 || r < 1e-6 {
        return None;
    }
    // Radial deviation is a necessary condition and cheap to reject on.
    for p in pts {
        if (p.dist(centre) - r).abs() > tol {
            return None;
        }
    }

    // Total swept angle, unwrapped along the run, gives both flags.
    let angle = |p: &Point| (p.y - centre.y).atan2(p.x - centre.x);
    let mut total = 0.0;
    for w in pts.windows(2) {
        let mut d = angle(&w[1]) - angle(&w[0]);
        while d > std::f64::consts::PI {
            d -= std::f64::consts::TAU;
        }
        while d < -std::f64::consts::PI {
            d += std::f64::consts::TAU;
        }
        total += d;
    }
    // A run that wraps almost all the way round cannot be one SVG arc.
    if total.abs() >= std::f64::consts::TAU * 0.97 || total.abs() < 1e-6 {
        return None;
    }

    let large = total.abs() > std::f64::consts::PI;
    let sweep = total > 0.0;

    // Verify by reconstruction rather than trusting the flag logic: build the
    // arc exactly as an exporter would and confirm it still passes through the
    // samples. A flag error is otherwise silent and produces a wildly wrong
    // curve.
    let cubics = arc_to_cubics(pts[0], r, large, sweep, pts[pts.len() - 1]);
    if cubics.is_empty() {
        return None;
    }
    let mut poly = vec![pts[0]];
    let mut cur = pts[0];
    for (c1, c2, end) in &cubics {
        for k in 1..=16 {
            poly.push(eval_cubic(cur, *c1, *c2, *end, k as f64 / 16.0));
        }
        cur = *end;
    }
    for p in pts {
        let mut best = f64::INFINITY;
        for w in poly.windows(2) {
            best = best.min(dist_point_segment(*p, w[0], w[1]));
        }
        if best > tol {
            return None;
        }
    }
    Some((r, large, sweep))
}

/// Largest distance from any sample point to the fitted curve.
fn max_deviation(pts: &[Point], segs: &[Seg]) -> f64 {
    if pts.is_empty() || segs.is_empty() {
        return 0.0;
    }
    // Flatten adaptively and far finer than any tolerance we check against.
    // A fixed subdivision count would charge long, strongly curved segments for
    // the chord error of the measuring stick rather than of the fit.
    let sub = SubPath { start: pts[0], segs: segs.to_vec(), closed: false };
    let poly = flatten(&sub, 1e-3);
    let mut worst: f64 = 0.0;
    for p in pts {
        let mut best = f64::INFINITY;
        for w in poly.windows(2) {
            best = best.min(dist_point_segment(*p, w[0], w[1]));
            if best <= 1e-12 {
                break;
            }
        }
        worst = worst.max(best);
    }
    worst
}

/// The questions that fitting asks of one contour.
struct Fitter<'a> {
    pts: &'a Vec<Point>,
    cfg: &'a FitConfig,
    tolerance: f64,
}

impl Fitter<'_> {
    /// Whether the straight line from `i0` to `i1` holds every sample.
    fn line(&self, i0: usize, i1: usize) -> bool {
        let span = &self.pts[i0..=i1];
        let worst = span
            .iter()
            .map(|p| dist_point_segment(*p, self.pts[i0], self.pts[i1]))
            .fold(0.0f64, f64::max);
        worst <= self.tolerance
    }

    /// The best cubic over a span, and the parameters after the last round of
    /// reparameterisation.
    fn rounds(&self, i0: usize, i1: usize, t1: Point, t2: Point) -> (Option<(f64, Point, Point)>, Vec<f64>) {
        let span = &self.pts[i0..=i1];
        let (p0, p3) = (self.pts[i0], self.pts[i1]);
        let mut u = chord_params(span);
        let mut best: Option<(f64, Point, Point)> = None;
        for _ in 0..=self.cfg.reparam_iterations {
            let (p1, p2) = fit_cubic_with_tangents(span, &u, t1, t2);
            let (err, _) = cubic_max_error(span, &u, p0, p1, p2, p3);
            if best.is_none_or(|b| err < b.0) {
                best = Some((err, p1, p2));
            }
            if err <= self.tolerance {
                break;
            }
            u = reparameterise(span, &u, p0, p1, p2, p3);
        }
        (best, u)
    }

    /// The handles of a cubic that holds every sample, if there is one.
    fn cubic(&self, i0: usize, i1: usize, t1: Point, t2: Point) -> Option<(Point, Point)> {
        let (best, _) = self.rounds(i0, i1, t1, t2);
        best.filter(|b| b.0 <= self.tolerance).map(|b| (b.1, b.2))
    }

    /// The sample at which the cubic strays furthest.
    fn worst(&self, i0: usize, i1: usize, t1: Point, t2: Point) -> usize {
        let span = &self.pts[i0..=i1];
        let (_, u) = self.rounds(i0, i1, t1, t2);
        let (p1, p2) = fit_cubic_with_tangents(span, &u, t1, t2);
        cubic_max_error(span, &u, self.pts[i0], p1, p2, self.pts[i1]).1
    }

    fn arc(&self, i0: usize, i1: usize) -> Option<(f64, bool, bool)> {
        try_arc(&self.pts[i0..=i1], self.tolerance)
    }

    /// Cubic `k` of the arc over a span.
    fn piece(&self, i0: usize, i1: usize, k: usize) -> Option<(Point, Point, Point)> {
        let (r, large, sweep) = self.arc(i0, i1)?;
        arc_to_cubics(self.pts[i0], r, large, sweep, self.pts[i1]).get(k).copied()
    }

    /// The tangents on both sides of a split.
    fn centre(&self, i: usize) -> (Point, Point) {
        let t = centre_tangent(self.pts, i);
        (-t, t)
    }

    fn side(&self, i: usize, forward: bool) -> Point {
        one_sided_tangent(self.pts, i, forward)
    }

    /// Fit a single run between two indices, with one-sided end tangents.
    fn span(&self, a: usize, b: usize) -> Vec<Seg> {
        let mut out = Vec::new();
        if b <= a || b >= self.pts.len() {
            return out;
        }
        vectify::fitting::fit_run(
            &|i, j| self.line(i, j),
            &|i, j, s, t| self.cubic(i, j, s, t),
            &|i, j| self.arc(i, j),
            &|i, j, k| self.piece(i, j, k),
            &|i, j, s, t| self.worst(i, j, s, t),
            &|i| self.centre(i),
            self.pts,
            self.cfg,
            a,
            b,
            self.side(a, true),
            self.side(b, false),
            0,
            &mut out,
        );
        out
    }
}

/// Drop corners that turn out not to be needed.
fn prune_corners(pts: &Vec<Point>, corners: &Vec<usize>, cfg: &FitConfig) -> Vec<usize> {
    let f = Fitter { pts, cfg, tolerance: as_float(cfg.tolerance) };
    vectify::fitting::prune_corners(
        &|a, b| {
            let segs = f.span(a, b);
            (segs.len(), segs.iter().map(|s| s.handles()).sum())
        },
        &|a, b| max_deviation(&pts[a..=b], &f.span(a, b)) <= f.tolerance,
        corners,
        cfg.merge_pass,
    )
}

/// Fit one contour, splitting at the supplied corner indices.
fn fit_contour(pts: &Vec<Point>, corners: &Vec<usize>, closed: bool, cfg: &FitConfig) -> Vec<Seg> {
    let f = Fitter { pts, cfg, tolerance: as_float(cfg.tolerance) };
    let n = pts.len();
    // The tangent at the seam of a smooth loop is taken cyclically, so that the
    // loop closes without a kink.
    let seam = if n >= 3 {
        (pts[1] - pts[n - 2]).normalized()
    } else if n == 2 {
        (pts[1] - pts[0]).normalized()
    } else {
        Point::ZERO
    };
    vectify::fitting::fit_contour(
        &|i, j| f.line(i, j),
        &|i, j, s, t| f.cubic(i, j, s, t),
        &|i, j| f.arc(i, j),
        &|i, j, k| f.piece(i, j, k),
        &|i, j, s, t| f.worst(i, j, s, t),
        &|i| f.centre(i),
        &|i, forward| f.side(i, forward),
        (seam, -seam),
        pts,
        corners,
        closed,
        cfg,
    )
}

/// What fitting asks of the numbers.
fn fit_calls(
    cfg: &FitConfig,
) -> FitCalls<
    impl Fn(Point, Point) -> bool,
    impl Fn(Point, Point) -> bool,
    impl Fn(&Vec<Point>, &Vec<usize>) -> Vec<usize> + '_,
    impl Fn(&Vec<Point>, &Vec<usize>, bool) -> Vec<Seg> + '_,
> {
    FitCalls {
        apart: |a: Point, b: Point| a.dist_sq(b) > 1e-20,
        on: |a: Point, b: Point| a.dist_sq(b) < 1e-20,
        prune: move |pts: &Vec<Point>, corners: &Vec<usize>| prune_corners(pts, corners, cfg),
        fit: move |pts: &Vec<Point>, corners: &Vec<usize>, closed: bool| {
            fit_contour(pts, corners, closed, cfg)
        },
    }
}

type Topology = vectify::topology::Topology<Point>;
type VectorImage = vectify::model::VectorImage<Point, f64>;

/// Lattice positions as fractional ones.
fn lift(topo: vectify::topology::Topology<GridPoint>) -> Topology {
    topo.lift(&|p: GridPoint| Point::new(p.x as f64, p.y as f64))
}

/// Move the contours onto the edges that the anti-aliasing implies.
fn refine_topology(topo: &mut Topology, seg: &Segmentation, img: &Raster, cfg: &SubpixelConfig) {
    let e = edge_calls(seg, img, cfg);
    vectify::subpixel::refine(
        &e.straight,
        &e.apart,
        &e.normal,
        &e.settle,
        &e.relax,
        &e.edges,
        &e.add,
        &e.shift,
        &e.land,
        &e.within,
        &e.cap,
        e.zero,
        topo,
        cfg,
    );
}

fn trace_of(
    img: &Raster,
    cfg: &VectorizeConfig,
    cache: &LabCache,
) -> vectify::trace::TraceResult<Point, f64> {
    let seg = segment_image(img, &cfg.segment, cache);
    let scale = as_float(cfg.output.scale);
    let traced = vectify::trace::trace(
        &|p: GridPoint| Point::new(p.x as f64, p.y as f64),
        &edge_calls(&seg, img, &cfg.subpixel),
        &bend_calls(&cfg.corners),
        &fit_calls(&cfg.fit),
        // Two shapes that share a border round it alike, so it stays welded.
        &|p: Point| Point::new(p.x * scale, p.y * scale).round_to(cfg.output.precision),
        &|r: f64| r * scale,
        &|_: Stage| {},
        &seg,
        cfg,
        seg.width as f64,
        seg.height as f64,
    );
    traced
}

/// Trace an image into a vector document.
fn vectorize(img: &Raster, cfg: &VectorizeConfig, cache: &LabCache) -> VectorImage {
    trace_of(img, cfg, cache).image
}


/// A number in units of decimal place `places`, as formatting it would round.
fn units(v: f64, places: u32) -> i64 {
    if !v.is_finite() {
        return 0;
    }
    let text = format!("{:.*}", places as usize, v);
    let digits: String = text.chars().filter(|c| *c != '.').collect();
    digits.parse().unwrap_or(0)
}

fn place(p: Point, places: u32) -> vectify::export::Point {
    vectify::export::Point { x: units(p.x, places), y: units(p.y, places) }
}

/// A position on a page whose y axis runs up. It is the height above the bottom
/// edge that is rounded, so y is counted from there.
fn page_place(p: Point, height: f64, places: u32) -> vectify::export::Point {
    let y = units(height, places).saturating_sub(units(height - p.y, places));
    vectify::export::Point { x: units(p.x, places), y }
}

/// Write `image` as SVG.
fn svg(image: &VectorImage, precision: u32) -> String {
    let fixed = image.map(&|p: Point| place(p, precision), &|r: f64| units(r, precision));
    vectify::export::svg::write(&fixed, precision)
}


/// Differences are added up in units so small that every one worth telling apart
/// is a whole number of them.
const UNIT: f64 = (1u64 << 40) as f64;

fn gaussian_kernel(sigma: f64, radius: usize) -> Vec<f32> {
    let mut k: Vec<f32> = (0..=2 * radius)
        .map(|i| {
            let x = i as f64 - radius as f64;
            (-(x * x) / (2.0 * sigma * sigma)).exp() as f32
        })
        .collect();
    let sum: f32 = k.iter().sum();
    for v in k.iter_mut() {
        *v /= sum;
    }
    k
}

/// A non-negative number in the small units that differences are added up in.
fn amount(v: f64) -> u64 {
    if v.is_finite() { (v.max(0.0) * UNIT).round() as u64 } else { u64::MAX }
}

/// An integer that orders like the number.
fn ordered(v: f64) -> i64 {
    if v.is_nan() {
        return i64::MIN;
    }
    // Zero has two representations.
    let bits = if v == 0.0 { 0 } else { v.to_bits() as i64 };
    if bits < 0 { i64::MIN ^ !bits } else { bits }
}

/// The number that [`ordered`] made an integer of.
fn from_ordered(key: i64) -> f64 {
    f64::from_bits((if key < 0 { i64::MIN ^ !key } else { key }) as u64)
}

/// Root mean squared error over three channels.
fn root_mean(squares: u128, pixels: usize) -> f64 {
    (squares as f64 / UNIT / (pixels.max(1) * 3) as f64).sqrt()
}

/// What comparing pixel by pixel asks of the numbers.
fn pixel_calls(
    background: [f32; 3],
) -> PixelCalls<
    impl Fn([f32; 4]) -> [f32; 4],
    impl Fn([f32; 4], [f32; 4]) -> u64,
    impl Fn([f32; 4], [f32; 4]) -> u64,
    impl Fn(u128, usize) -> i64,
> {
    let last = std::cell::Cell::new(([0.0; 4], [0.0; 4], 0));
    PixelCalls {
        lay: move |c: [f32; 4]| on_background(c, background),
        // CIEDE2000 per pixel is the expensive part of scoring, and neighbours are
        // often alike.
        delta: move |p: [f32; 4], q: [f32; 4]| {
            let (a, b, known) = last.get();
            if p == a && q == b {
                return known;
            }
            let d = delta_e2000(srgb_to_lab([p[0], p[1], p[2]]), srgb_to_lab([q[0], q[1], q[2]]));
            let d = amount(d as f64);
            last.set((p, q, d));
            d
        },
        square: |p: [f32; 4], q: [f32; 4]| {
            let channel = |c: usize| ((p[c] - q[c]) as f64 * 255.0).powi(2);
            amount(channel(0) + channel(1) + channel(2))
        },
        peak: |squares: u128, pixels: usize| {
            ordered(20.0 * (255.0 / root_mean(squares, pixels)).log10())
        },
        cap: ordered(99.0),
    }
}

/// What structural similarity asks of the numbers: Gaussian-windowed on luma,
/// following Wang et al. with the standard 11-tap sigma 1.5 window and C1/C2
/// constants.
fn likeness_calls() -> LikenessCalls<
    f32,
    f32,
    f64,
    impl Fn([f32; 4]) -> f32,
    impl Fn(f32, f32) -> f32,
    impl Fn(f32, f32, f32) -> f32,
    impl Fn(f64, Moments<f32>) -> f64,
    impl Fn(f64, usize) -> i64,
> {
    const C1: f32 = 6.5025; // (0.01 * 255)^2
    const C2: f32 = 58.5225; // (0.03 * 255)^2
    LikenessCalls {
        luma: |c: [f32; 4]| (0.2126 * c[0] + 0.7152 * c[1] + 0.0722 * c[2]) * 255.0,
        times: |a: f32, b: f32| a * b,
        blend: |acc: f32, v: f32, k: f32| acc + v * k,
        zero: 0.0,
        kernel: gaussian_kernel(1.5, 5),
        plus: |sum: f64, m: Moments<f32>| {
            let vx = m.xx - m.x * m.x;
            let vy = m.yy - m.y * m.y;
            let vxy = m.xy - m.x * m.y;
            let num = (2.0 * m.x * m.y + C1) * (2.0 * vxy + C2);
            let den = (m.x * m.x + m.y * m.y + C1) * (vx + vy + C2);
            sum + (num / den) as f64
        },
        none: 0.0,
        mean: |sum: f64, pixels: usize| ordered(sum / pixels as f64),
        low: ordered(0.0),
        high: ordered(1.0),
    }
}

/// How two images compare.
#[derive(Clone, Copy, Debug, PartialEq)]
struct Compared {
    match_pct: f64,
    mean_delta_e: f64,
    p95_delta_e: f64,
    max_delta_e: f64,
    rmse: f64,
    psnr: f64,
    ssim: f64,
}

fn compare_at(original: &Raster, rendered: &Raster, threshold: f32) -> Compared {
    let c = vectify::compare::compare(
        &pixel_calls([1.0, 1.0, 1.0]),
        &likeness_calls(),
        original,
        rendered,
        amount(threshold as f64),
    );
    // No pixel differs by less than nothing.
    let matched = if threshold >= 0.0 { c.matched } else { 0 };
    let n = c.pixels.max(1) as f64;
    Compared {
        match_pct: 100.0 * matched as f64 / n,
        mean_delta_e: c.total as f64 / UNIT / n,
        p95_delta_e: c.p95 as f64 / UNIT,
        max_delta_e: c.largest as f64 / UNIT,
        rmse: root_mean(c.squares, c.pixels),
        psnr: from_ordered(c.psnr),
        ssim: from_ordered(c.ssim),
    }
}

fn compare(original: &Raster, rendered: &Raster) -> Compared {
    compare_at(original, rendered, 2.0)
}

/// How a trace compares with its original.
#[derive(Clone, Copy, Debug)]
struct Report {
    match_pct: f64,
    mean_delta_e: f64,
    complexity: vectify::model::Complexity,
    output_bytes: usize,
}

impl Report {
    fn points(&self) -> usize {
        self.complexity.anchors + self.complexity.handles
    }
}

fn painted(svg: &str, w: u32, h: u32) -> Raster {
    let out = rasterize_svg(svg, 1, w, h).expect("render");
    Raster { width: w, height: h, data: out.data.iter().map(|c| to_f32(*c)).collect() }
}

/// Full round trip: export, render, compare.
fn score(original: &Raster, image: &VectorImage) -> Report {
    let (w, h) = (image.width.round() as u32, image.height.round() as u32);
    let rendered = painted(&svg(image, 6), w, h);
    let c = compare(original, &rendered);
    Report {
        match_pct: c.match_pct,
        mean_delta_e: c.mean_delta_e,
        complexity: image.complexity(),
        output_bytes: svg(image, 3).len(),
    }
}

/// Whether `c` lies strictly between two colours, and actually on the line
/// joining them.
fn is_blend(a: [f32; 4], c: [f32; 4], b: [f32; 4]) -> bool {
    let mut num = 0.0f32;
    let mut den = 0.0f32;
    for k in 0..3 {
        let diff = b[k] - a[k];
        num += (c[k] - a[k]) * diff;
        den += diff * diff;
    }
    if den <= 1e-6 {
        return false;
    }
    let t = num / den;
    let mut resid = 0.0f32;
    for k in 0..3 {
        let e = c[k] - (a[k] + (b[k] - a[k]) * t);
        resid += e * e;
    }
    (0.12..=0.88).contains(&t) && resid.sqrt() < 0.08
}

/// Cheap measurements that decide which settings are worth trying. The library
/// samples, counts and classifies; this compares colours.
fn profile(img: &Raster) -> ImageProfile {
    measure(
        &|c: [f32; 4]| c[3] < 0.999,
        &|c: [f32; 4]| {
            (((c[0] * 31.0) as u32) << 10) | (((c[1] * 31.0) as u32) << 5) | ((c[2] * 31.0) as u32)
        },
        // The bits of a non-negative float order like it.
        &|a: [f32; 4], b: [f32; 4]| (luma(b) - luma(a)).abs().to_bits(),
        &|a: [f32; 4], b: [f32; 4]| (0..3).all(|k| (a[k] - b[k]).abs() < 0.004),
        &is_blend,
        0.004f32.to_bits(),
        0.12f32.to_bits(),
        img,
    )
}

/// How much of a point of match a doubling of control points is worth.
const POINT_DISCOUNT: f64 = 0.5;

/// Accuracy discounted by what it cost to buy, as an integer that orders like
/// it. The logarithm is the right shape because control-point cost is felt
/// multiplicatively.
fn discounted(report: &Report, budget: usize) -> i64 {
    let reference = (budget as f64 / 32.0).max(32.0);
    let ratio = report.points() as f64 / reference;
    let v = report.match_pct - POINT_DISCOUNT * (1.0 + ratio).log2();
    let bits = if v == 0.0 { 0 } else { v.to_bits() as i64 };
    if bits < 0 {
        i64::MIN ^ !bits
    } else {
        bits
    }
}

struct Found {
    label: String,
    config: VectorizeConfig,
    report: Report,
    score: Score,
}

/// Search for the best configuration, best first.
fn auto_select(
    img: &Raster,
    max_seeds: usize,
    refine_rounds: usize,
    transparent_colors: &Vec<Rgba8>,
    on_progress: &dyn Fn(usize, usize),
) -> Vec<Found> {
    let prof = profile(img);
    let budget = derive_point_budget(img.width, img.height);
    let cache = LabCache::new();
    let done = std::cell::Cell::new(0usize);
    let store = std::cell::RefCell::new(Vec::new());
    let run = |batch: &Vec<Trial>, _full: bool, total: usize| -> Vec<Option<Outcome>> {
        batch
            .iter()
            .map(|trial| {
                let image = vectorize(img, &trial.config, &cache);
                let reference = scoring_reference(img, &trial.config.segment, &cache);
                let report = score(&reference, &image);
                store.borrow_mut().push(report);
                done.set(done.get() + 1);
                on_progress(done.get().min(total), total);
                let id = store.borrow().len() - 1;
                Some(Outcome { score: scored(&report, budget), id })
            })
            .collect()
    };
    let picked = picker::auto_select(
        &run,
        &prof,
        max_seeds,
        transparent_colors,
        DEFAULT_TRANSPARENT_TOLERANCE,
        Plan {
            target: billionths(99.0),
            budget,
            refine_top: 1,
            refine_rounds,
            downscaled: false,
        },
    );
    let store: Vec<Report> = store.into_inner();
    picked
        .into_iter()
        .map(|c| Found {
            report: store[c.id],
            score: scored(&store[c.id], budget),
            label: c.label,
            config: c.config,
        })
        .collect()
}

fn scored(report: &Report, budget: usize) -> Score {
    Score {
        points: report.points(),
        match_pct: billionths(report.match_pct),
        discounted: discounted(report, budget),
    }
}

// ---- Scenarios ----------------------------------------------------------

fn drawn(w: u32, h: u32, color: &dyn Fn(u32, u32) -> [f32; 4]) -> Raster {
    let mut img = Raster::new(w, h, [0.0; 4]);
    for y in 0..h {
        for x in 0..w {
            img.set(x, y, color(x, y));
        }
    }
    img
}

fn within(x: u32, y: u32, lo: u32, hi: u32) -> bool {
    (lo..hi).contains(&x) && (lo..hi).contains(&y)
}

fn trace(img: &Raster, cfg: &VectorizeConfig) -> VectorImage {
    vectorize(img, cfg, &LabCache::new())
}

const WHITE: Rgba8 = Rgba8 { r: 255, g: 255, b: 255, a: 255 };

// ---- Segmentation -------------------------------------------------------

fn cfg_binary() -> SegmentConfig {
    SegmentConfig { mode: SegmentMode::Binary, despeckle_area: 0, ..Default::default() }
}

fn palette_cfg() -> SegmentConfig {
    SegmentConfig {
        mode: SegmentMode::Palette,
        colors: 2,
        despeckle_area: 0,
        ..Default::default()
    }
}

fn keyed_cfg() -> SegmentConfig {
    SegmentConfig { transparent_colors: vec![Rgba8::opaque(255, 255, 255)], ..palette_cfg() }
}

/// A white field with two separate black squares.
fn two_squares() -> Raster {
    drawn(20, 10, &|x, y| match (x, y) {
        (2..=5, 2..=5) | (12..=15, 2..=5) => [0.0, 0.0, 0.0, 1.0],
        _ => [1.0, 1.0, 1.0, 1.0],
    })
}

#[test]
fn disconnected_blobs_become_separate_regions() {
    let seg = segment_image(&two_squares(), &cfg_binary(), &LabCache::new());
    // One background plus two squares.
    assert_eq!(seg.region_count(), 3, "regions: {:?}", seg.region_area);
    let a = seg.region_at(3, 3);
    let b = seg.region_at(13, 3);
    assert_ne!(a, b, "same-coloured but disconnected blobs must not share a region");
    assert_eq!(seg.region_area[a as usize], 16);
    assert_eq!(seg.region_area[b as usize], 16);
}

#[test]
fn despeckle_removes_lone_pixels() {
    let mut img = drawn(16, 16, &|_, _| [1.0, 1.0, 1.0, 1.0]);
    // A single stray dark pixel, the shape JPEG noise and scanner dust take.
    img.set(8, 8, [0.0, 0.0, 0.0, 1.0]);
    let cache = LabCache::new();
    let mut cfg = cfg_binary();
    cfg.despeckle_area = 0;
    let kept = segment_image(&img, &cfg, &cache);
    assert_eq!(kept.region_count(), 2, "speck should survive with despeckle off");
    cfg.despeckle_area = 4;
    let cleaned = segment_image(&img, &cfg, &cache);
    assert_eq!(cleaned.region_count(), 1, "speck should be absorbed");
}

#[test]
fn transparent_pixels_get_their_own_label() {
    let img = drawn(8, 8, &|x, _| [0.2, 0.4, 0.6, if x < 4 { 1.0 } else { 0.0 }]);
    let seg = segment_image(&img, &palette_cfg(), &LabCache::new());
    assert!(seg.palette.alpha_slot.is_some());
    assert!(seg.is_transparent(seg.region_at(6, 4)));
    assert!(!seg.is_transparent(seg.region_at(1, 4)));
}

/// Left half white, right half red: an opaque image with a colour to key out.
fn white_and_red() -> Raster {
    drawn(8, 8, &|x, _| if x < 4 { [1.0, 1.0, 1.0, 1.0] } else { [0.8, 0.1, 0.1, 1.0] })
}

#[test]
fn a_keyed_colour_becomes_a_transparent_region() {
    let seg = segment_image(&white_and_red(), &keyed_cfg(), &LabCache::new());
    assert!(seg.is_transparent(seg.region_at(1, 4)), "white should be keyed out");
    assert!(!seg.is_transparent(seg.region_at(6, 4)), "red should still be painted");
    assert_eq!(seg.region_fill(seg.region_at(1, 4)), Rgba8::transparent());
    assert_eq!(seg.palette.alpha_slot, None, "an opaque image needs no alpha slot");
}

#[test]
fn keyed_regions_keep_their_real_colour_for_edge_solving() {
    // The sub-pixel solver reads `region_color` to invert edge blends. A keyed
    // region must still report the colour it really is -- it is the background
    // the neighbouring shape's anti-aliasing was blended with.
    let seg = segment_image(&white_and_red(), &keyed_cfg(), &LabCache::new());
    let bg = seg.region_color[seg.region_at(1, 4) as usize];
    assert_eq!((bg.r, bg.g, bg.b, bg.a), (255, 255, 255, 255));
}

#[test]
fn scoring_reference_borrows_when_nothing_is_keyed() {
    let img = white_and_red();
    let cache = LabCache::new();
    let r = scoring_reference(&img, &palette_cfg(), &cache);
    assert!(matches!(r, std::borrow::Cow::Borrowed(_)));
}

#[test]
fn scoring_reference_clears_only_the_keyed_pixels() {
    let img = white_and_red();
    let cache = LabCache::new();
    let r = scoring_reference(&img, &keyed_cfg(), &cache);
    assert_eq!(r.get(1, 4)[3], 0.0, "white pixel should be transparent");
    assert_eq!(r.get(6, 4)[3], 1.0, "red pixel should be untouched");
    assert_eq!(img.get(1, 4)[3], 1.0, "the original must not be modified");
}

#[test]
fn region_colors_track_the_source_not_the_palette() {
    let img = drawn(12, 6, &|x, _| {
        if x < 6 {
            [0.80, 0.20, 0.20, 1.0]
        } else {
            [0.20, 0.30, 0.85, 1.0]
        }
    });
    let seg = segment_image(&img, &palette_cfg(), &LabCache::new());
    let left = seg.region_color[seg.region_at(2, 3) as usize];
    assert!((left.r as i32 - 204).abs() < 12, "got {:?}", left);
    assert!((left.g as i32 - 51).abs() < 12, "got {:?}", left);
}

// ---- Topology -----------------------------------------------------------

fn seg_of(img: &Raster, colors: usize) -> Segmentation {
    let cfg = SegmentConfig {
        mode: if colors == 2 { SegmentMode::Binary } else { SegmentMode::Palette },
        colors,
        despeckle_area: 0,
        ..Default::default()
    };
    segment_image(img, &cfg, &LabCache::new())
}

fn dark_square() -> Raster {
    drawn(20, 20, &|x, y| {
        if within(x, y, 5, 15) {
            [0.0, 0.0, 0.0, 1.0]
        } else {
            [1.0, 1.0, 1.0, 1.0]
        }
    })
}

#[test]
fn square_on_background_has_one_interior_loop_and_a_border() {
    let seg = seg_of(&dark_square(), 2);
    let topo = build(&seg);

    let sq = seg.region_at(10, 10);
    let rings = &topo.region_rings[sq as usize];
    assert_eq!(rings.len(), 1, "square should have exactly one ring");
    assert!(!rings[0].is_hole(), "the square's own ring is an outer ring");
    // 10x10 square: the crack contour encloses exactly 100 lattice units.
    let area = rings[0].doubled_area as f64 / 2.0;
    assert!((area.abs() - 100.0).abs() < 1e-6, "area {area}");

    let bg = seg.region_at(0, 0);
    let bg_rings = &topo.region_rings[bg as usize];
    assert_eq!(bg_rings.len(), 2, "background has an outer ring plus a hole");
    assert_eq!(bg_rings.iter().filter(|r| r.is_hole()).count(), 1);
}

#[test]
fn the_shared_border_is_one_arc_referenced_twice() {
    // The square and the background do not each own a copy of the boundary
    // between them.
    let seg = seg_of(&dark_square(), 2);
    let topo = build(&seg);
    let sq = seg.region_at(10, 10);
    let bg = seg.region_at(0, 0);

    let sq_arcs: Vec<u32> = topo.region_rings[sq as usize]
        .iter()
        .flat_map(|r| r.refs.iter().map(|a| a.arc))
        .collect();
    let hole =
        topo.region_rings[bg as usize].iter().find(|r| r.is_hole()).expect("background hole");
    let hole_arcs: Vec<u32> = hole.refs.iter().map(|a| a.arc).collect();

    assert_eq!(sq_arcs.len(), 1);
    assert_eq!(hole_arcs, sq_arcs, "both regions must cite the same arc id");

    // And they cite it in opposite directions.
    let sq_ref = topo.region_rings[sq as usize][0].refs[0];
    let bg_ref = hole.refs[0];
    assert_eq!(sq_ref.arc, bg_ref.arc);
    assert_ne!(sq_ref.reversed, bg_ref.reversed);
}

#[test]
fn three_regions_meet_at_junctions() {
    // Three vertical stripes: the two internal borders are separate arcs, each
    // shared by the pair of stripes it separates.
    let img = drawn(30, 10, &|x, _| match x / 10 {
        0 => [0.9, 0.1, 0.1, 1.0],
        1 => [0.1, 0.85, 0.15, 1.0],
        _ => [0.1, 0.15, 0.9, 1.0],
    });
    let seg = seg_of(&img, 3);
    assert_eq!(seg.region_count(), 3);
    let topo = build(&seg);

    let mid = seg.region_at(15, 5);
    let mid_rings = &topo.region_rings[mid as usize];
    assert_eq!(mid_rings.len(), 1);
    // Middle stripe is bounded by: left border arc, right border arc, and the
    // two image-edge runs along top and bottom.
    assert!(mid_rings[0].refs.len() >= 3);
    let area = mid_rings[0].doubled_area as f64 / 2.0;
    assert!((area.abs() - 100.0).abs() < 1e-6);
}

/// The regions left and right of the unit step from `a` to `b`.
fn sides(seg: &Segmentation, a: (u32, u32), b: (u32, u32)) -> (u32, u32) {
    let (ax, ay) = (a.0 as i64, a.1 as i64);
    let (bx, by) = (b.0 as i64, b.1 as i64);
    let at = |x: i64, y: i64| seg.region_at_signed(x, y);
    match (bx - ax, by - ay) {
        (1, 0) => (at(ax, ay - 1), at(ax, ay)),
        (-1, 0) => (at(bx, by), at(bx, by - 1)),
        (0, 1) => (at(ax, ay), at(ax - 1, ay)),
        (0, -1) => (at(bx - 1, by), at(bx, by)),
        step => panic!("not a unit step: {step:?}"),
    }
}

#[test]
fn every_arc_separates_exactly_two_regions_consistently() {
    let img = drawn(24, 24, &|x, y| {
        if (x / 6 + y / 6) % 2 == 0 {
            [0.1, 0.1, 0.1, 1.0]
        } else {
            [0.9, 0.9, 0.9, 1.0]
        }
    });
    let seg = seg_of(&img, 2);
    let topo = build(&seg);
    for (i, arc) in topo.arcs.iter().enumerate() {
        assert_ne!(arc.left, arc.right, "arc {i} does not separate anything");
        // Re-derive the sides at every step and confirm they never change.
        for k in 0..arc.points.len() - 1 {
            let a = (arc.points[k].x, arc.points[k].y);
            let b = (arc.points[k + 1].x, arc.points[k + 1].y);
            let (l, r) = sides(&seg, a, b);
            assert_eq!((l, r), (arc.left, arc.right), "arc {i} flips sides at step {k}");
        }
    }
}

#[test]
fn region_rings_are_closed() {
    let img = drawn(32, 32, &|x, y| {
        let d = ((x as f64 - 16.0).powi(2) + (y as f64 - 16.0).powi(2)).sqrt();
        if d < 10.0 {
            [0.1, 0.2, 0.8, 1.0]
        } else {
            [0.95, 0.95, 0.9, 1.0]
        }
    });
    let seg = seg_of(&img, 2);
    let topo = lift(build(&seg));
    for rings in &topo.region_rings {
        for ring in rings {
            let mut pts: Vec<Point> = Vec::new();
            for r in &ring.refs {
                pts.extend(topo.arc_points(*r));
            }
            assert!(pts.len() > 2);
            assert!(
                pts[0].dist(*pts.last().unwrap()) < 1e-9,
                "ring not closed: {:?} .. {:?}",
                pts[0],
                pts.last().unwrap()
            );
        }
    }
}

#[test]
fn image_corners_are_junctions() {
    let img = drawn(8, 8, &|_, _| [0.2, 0.4, 0.6, 1.0]);
    let seg = seg_of(&img, 2);
    let topo = build(&seg);
    // A single uniform region: its boundary is the image border, which must be
    // cut at the four corners rather than traced as one smooth loop.
    let r = seg.region_at(4, 4);
    let refs: usize = topo.region_rings[r as usize].iter().map(|ring| ring.refs.len()).sum();
    assert_eq!(refs, 4, "expected four border arcs, got {refs}");
    for arc in &topo.arcs {
        assert!(arc.on_border);
    }
}

// ---- Sub-pixel edges ----------------------------------------------------

/// Coverage of a pixel whose centre lies `t` past an edge with normal `(nx, ny)`.
fn distance_to_coverage(t: f64, nx: f64, ny: f64) -> f64 {
    let c = nx.abs().max(ny.abs());
    let s = nx.abs().min(ny.abs());
    let h = (c + s) * 0.5;
    let d = (c - s) * 0.5;
    if t <= -h {
        return 0.0;
    }
    if t >= h {
        return 1.0;
    }
    if s < 1e-12 {
        return (0.5 + t / c.max(1e-12)).clamp(0.0, 1.0);
    }
    if t <= -d {
        (t + h) * (t + h) / (2.0 * c * s)
    } else if t <= d {
        0.5 + t / c
    } else {
        1.0 - (h - t) * (h - t) / (2.0 * c * s)
    }
}

fn refined(img: &Raster, cfg: &SegmentConfig, sp: &SubpixelConfig) -> Topology {
    let seg = segment_image(img, cfg, &LabCache::new());
    let mut topo = lift(build(&seg));
    refine_topology(&mut topo, &seg, img, sp);
    topo
}

/// Reconstruct a straight edge, analytically anti-aliased, and report the mean
/// absolute positional error in pixels.
fn edge_error(nx: f64, ny: f64, offset: f64, enabled: bool) -> f64 {
    let n = Point::new(nx, ny).normalized();
    let img = drawn(48, 48, &|x, y| {
        let centre = Point::new(x as f64 + 0.5, y as f64 + 0.5);
        // White on the +n side, black on the other.
        let v = distance_to_coverage(centre.dot(n) - offset, n.x, n.y) as f32;
        [v, v, v, 1.0]
    });
    let topo = refined(&img, &cfg_binary(), &SubpixelConfig { enabled, ..Default::default() });
    let mut total = 0.0;
    let mut count = 0usize;
    for arc in &topo.arcs {
        // Skip endpoints: they are pinned to the image border.
        if arc.on_border || arc.points.len() < 5 {
            continue;
        }
        for p in &arc.points[2..arc.points.len() - 2] {
            total += (p.dot(n) - offset).abs();
            count += 1;
        }
    }
    assert!(count > 0, "no interior contour vertices found");
    total / count as f64
}

#[test]
fn subpixel_recovers_axis_aligned_edges() {
    // A vertical edge at x = 20.3. Snapping to the pixel grid can only ever
    // answer 20.0, an error of 0.3px; the inversion should do far better.
    let raw = edge_error(1.0, 0.0, 20.3, false);
    let refined = edge_error(1.0, 0.0, 20.3, true);
    assert!(raw > 0.2, "raw crack error unexpectedly small: {raw}");
    assert!(refined < 0.02, "refined error {refined} should be near-exact (raw was {raw})");
}

#[test]
fn subpixel_recovers_slanted_edges() {
    for (deg, offset) in [(15.0f64, 18.7f64), (30.0, 22.1), (45.0, 25.4), (63.0, 19.9)] {
        let th: f64 = deg.to_radians();
        let (nx, ny) = (th.cos(), th.sin());
        let raw = edge_error(nx, ny, offset, false);
        let refined = edge_error(nx, ny, offset, true);
        // The inversion is exact for a straight edge, so the only residue is the
        // tangent estimate and the light position smoothing. A hundredth of a
        // pixel leaves room for both without letting a real regression through:
        // the raw contour sits around 0.3px.
        assert!(refined < 0.01, "{deg} deg: refined error {refined} too large (raw {raw})");
        assert!(
            refined < raw * 0.1,
            "{deg} deg: refinement did not clearly beat the raw contour ({refined} vs {raw})"
        );
    }
}

#[test]
fn subpixel_leaves_hard_edges_alone() {
    // A hard-edged image carries no coverage information. The crack is already
    // the right answer and must not be perturbed.
    let img = drawn(32, 32, &|x, _| {
        let v = if x < 16 { 0.0 } else { 1.0 };
        [v, v, v, 1.0]
    });
    let topo = refined(&img, &cfg_binary(), &SubpixelConfig::default());
    for arc in topo.arcs.iter().filter(|a| !a.on_border) {
        for p in &arc.points {
            assert!((p.x - 16.0).abs() < 1e-9, "hard edge moved to {:?}", p);
        }
    }
}

#[test]
fn refinement_does_not_round_off_corners() {
    // Smoothing must not bite into the corners of a hard-edged square: the
    // fitter would then re-fit each side as a straight line through the
    // shortened ends, shifting every edge inward.
    let img = drawn(64, 64, &|x, y| {
        if within(x, y, 16, 48) {
            [0.1, 0.2, 0.8, 1.0]
        } else {
            [1.0, 1.0, 1.0, 1.0]
        }
    });
    let topo = refined(&img, &palette_cfg(), &SubpixelConfig::default());
    for arc in topo.arcs.iter().filter(|a| !a.on_border) {
        for p in &arc.points {
            // Every vertex of the square's contour is an integer lattice point
            // and must still be one.
            assert!(
                (p.x - p.x.round()).abs() < 1e-9 && (p.y - p.y.round()).abs() < 1e-9,
                "hard-edged contour vertex drifted to {:?}",
                p
            );
            assert!(
                (16.0..=48.0).contains(&p.x) && (16.0..=48.0).contains(&p.y),
                "vertex {:?} left the square's boundary",
                p
            );
        }
        // The four corners must still be present, unrounded.
        for corner in [(16.0, 16.0), (48.0, 16.0), (16.0, 48.0), (48.0, 48.0)] {
            let want = Point::new(corner.0, corner.1);
            assert!(
                arc.points.iter().any(|p| p.dist(want) < 1e-9),
                "corner {:?} was rounded away",
                want
            );
        }
    }
}

#[test]
fn junctions_stay_welded() {
    // Three colour bands meeting the image edge. After refinement the arcs
    // meeting at each junction must still share an identical endpoint.
    let img = drawn(36, 12, &|x, _| match x / 12 {
        0 => [0.9, 0.1, 0.1, 1.0],
        1 => [0.1, 0.85, 0.15, 1.0],
        _ => [0.1, 0.15, 0.9, 1.0],
    });
    let cfg = SegmentConfig { colors: 3, ..palette_cfg() };
    let topo = refined(&img, &cfg, &SubpixelConfig::default());
    for arc in &topo.arcs {
        let n = arc.points.len();
        assert!(arc.points[0].dist(topo.nodes[arc.start_node as usize]) < 1e-12);
        assert!(arc.points[n - 1].dist(topo.nodes[arc.end_node as usize]) < 1e-12);
    }
}

// ---- Smoothing ----------------------------------------------------------

/// Left half dark, right half light, with a checkerboard wobble of `noise` on
/// top: a hard edge at x = w/2 plus the high-frequency noise a JPEG adds.
fn noisy_step(w: u32, h: u32, noise: f32) -> Raster {
    drawn(w, h, &|x, y| {
        let base = if x < w / 2 { 0.2 } else { 0.8 };
        let wobble = if (x + y) % 2 == 0 { noise } else { -noise };
        let v = base + wobble;
        [v, v, v, 1.0]
    })
}

fn spread(r: &Raster, xs: std::ops::Range<u32>) -> f32 {
    let vals: Vec<f32> = (0..r.height)
        .flat_map(|y| xs.clone().map(move |x| (x, y)))
        .map(|(x, y)| r.get(x, y)[0])
        .collect();
    let mean = vals.iter().sum::<f32>() / vals.len() as f32;
    (vals.iter().map(|v| (v - mean).powi(2)).sum::<f32>() / vals.len() as f32).sqrt()
}

#[test]
fn flat_regions_are_left_alone() {
    let r = drawn(12, 12, &|_, _| [0.3, 0.5, 0.7, 1.0]);
    let out = bilateral(&r, &BilateralConfig::default());
    for (a, b) in r.data.iter().zip(&out.data) {
        for i in 0..4 {
            assert!((a[i] - b[i]).abs() < 1e-5, "{a:?} became {b:?}");
        }
    }
}

#[test]
fn noise_is_removed_but_the_edge_survives() {
    let img = noisy_step(32, 16, 0.01);
    let out = bilateral(&img, &BilateralConfig::default());

    // Well clear of the edge, the wobble should be largely gone.
    let before = spread(&img, 2..12);
    let after = spread(&out, 2..12);
    assert!(after < before * 0.3, "noise {before:.4} only fell to {after:.4}");

    // The pixels either side of the step must still be on their own side. A box
    // blur of the same size would drag both to about 0.5.
    let dark = out.get(15, 8)[0];
    let light = out.get(16, 8)[0];
    assert!(dark < 0.25, "dark side of the edge blurred to {dark:.3}");
    assert!(light > 0.75, "light side of the edge blurred to {light:.3}");
}

#[test]
fn a_zero_radius_is_the_identity() {
    let img = noisy_step(8, 8, 0.05);
    let out = bilateral(&img, &BilateralConfig { radius: 0, range_sigma: 4.0 });
    assert_eq!(img.data, out.data);
}

#[test]
fn alpha_is_passed_through() {
    let mut img = noisy_step(8, 8, 0.01);
    img.set(3, 3, [0.5, 0.5, 0.5, 0.25]);
    let out = bilateral(&img, &BilateralConfig::default());
    assert_eq!(out.get(3, 3)[3], 0.25);
}

#[test]
fn tiny_and_degenerate_sizes_do_not_panic() {
    for (w, h) in [(0, 0), (1, 1), (1, 9), (9, 1)] {
        let img = Raster::new(w, h, [0.0; 4]);
        let out = bilateral(&img, &BilateralConfig::default());
        assert_eq!((out.width, out.height), (w, h));
    }
}

// ---- Tracing ------------------------------------------------------------

#[test]
fn a_circle_costs_few_points() {
    let img = drawn(64, 64, &|x, y| {
        let d = ((x as f64 + 0.5 - 32.0).powi(2) + (y as f64 + 0.5 - 32.0).powi(2)).sqrt();
        // Analytic anti-aliasing so the sub-pixel pass has real data.
        let v = ((d - 20.0).clamp(-0.5, 0.5) + 0.5) as f32;
        [v, v, v, 1.0]
    });
    let out = trace(&img, &Preset::BlackAndWhite.config());
    let c = out.complexity();
    assert!(c.total_points() < 60, "circle cost {} points: {:?}", c.total_points(), c);
}

#[test]
fn keying_works_for_two_tone_tracing() {
    let img = drawn(40, 40, &|x, y| {
        if within(x, y, 10, 30) {
            [0.0, 0.0, 0.0, 1.0]
        } else {
            [1.0, 1.0, 1.0, 1.0]
        }
    });
    let mut cfg = Preset::BlackAndWhite.config();
    cfg.segment.transparent_colors = vec![WHITE];
    let out = trace(&img, &cfg);
    assert_eq!(out.shapes.len(), 1, "just the ink");
    let c = out.shapes[0].color;
    assert!(0.2126 * c.r as f64 + 0.7152 * c.g as f64 + 0.0722 * (c.b as f64) < 10.0);
}

#[test]
fn keying_works_alongside_real_alpha_transparency() {
    // Left third: genuinely transparent. Middle third: white. Right third: red.
    // Both the alpha and the keyed colour must be left unpainted.
    let img = drawn(60, 20, &|x, _| match x / 20 {
        0 => [0.0, 0.0, 0.0, 0.0],
        1 => [1.0, 1.0, 1.0, 1.0],
        _ => [0.85, 0.1, 0.1, 1.0],
    });
    let mut cfg = Preset::Logo.config();
    cfg.segment.colors = 2;
    cfg.segment.transparent_colors = vec![WHITE];
    let out = trace(&img, &cfg);
    assert_eq!(out.shapes.len(), 1, "only the red third is painted");
    assert!(out.shapes[0].color.r > 150 && out.shapes[0].color.g < 100);
}

fn luma8(c: Rgba8) -> f32 {
    0.2126 * c.r as f32 + 0.7152 * c.g as f32 + 0.0722 * c.b as f32
}

#[test]
fn traces_a_square_into_two_shapes() {
    let img = drawn(40, 40, &|x, y| {
        if within(x, y, 10, 30) {
            [0.0, 0.0, 0.0, 1.0]
        } else {
            [1.0, 1.0, 1.0, 1.0]
        }
    });
    let mut cfg = Preset::BlackAndWhite.config();
    cfg.segment.mode = SegmentMode::Binary;
    let c = trace(&img, &cfg).complexity();
    assert_eq!(c.shapes, 2, "background plus square");
    // A square should cost four line segments per ring and no handles at all.
    // Anything more means corners or straight runs were mishandled.
    assert_eq!(c.handles, 0, "a square should need no curve handles");
    assert!(c.segments <= 12, "segments: {}", c.segments);
}

#[test]
fn shared_borders_are_geometrically_identical() {
    // Two colour fields meeting along a diagonal. The border must appear in both
    // shapes as the very same list of coordinates -- reversed, but point for
    // point identical. That is the property that prevents fringing and gaps.
    let img = drawn(48, 48, &|x, y| {
        if (x as f64) * 0.6 + (y as f64) * 0.8 < 30.0 {
            [0.85, 0.15, 0.15, 1.0]
        } else {
            [0.15, 0.25, 0.85, 1.0]
        }
    });
    let mut cfg = Preset::Logo.config();
    cfg.segment.colors = 2;
    cfg.output.group_by_color = false;
    let out = trace(&img, &cfg);
    assert_eq!(out.shapes.len(), 2);
    let flat: Vec<Vec<Point>> =
        out.shapes.iter().map(|s| flatten(&s.subpaths[0], 0.01)).collect();
    // Every vertex of the shared border in shape 0 must coincide exactly with
    // one in shape 1.
    let mut matched = 0usize;
    for p in &flat[0] {
        if flat[1].iter().any(|q| p.dist_sq(*q) < 1e-18) {
            matched += 1;
        }
    }
    assert!(
        matched > flat[0].len() / 4,
        "only {matched} of {} vertices were shared",
        flat[0].len()
    );
}

#[test]
fn transparent_regions_are_left_unpainted() {
    let img = drawn(32, 32, &|x, y| {
        if within(x, y, 8, 24) {
            [0.9, 0.2, 0.2, 1.0]
        } else {
            [0.0, 0.0, 0.0, 0.0]
        }
    });
    assert!(img.has_alpha(&|c: [f32; 4]| c[3] < 0.999));
    let mut cfg = Preset::Logo.config();
    cfg.segment.colors = 2;
    let out = trace(&img, &cfg);
    assert_eq!(out.shapes.len(), 1, "only the opaque square is painted");
    assert_eq!(out.shapes[0].color.a, 255);
}

/// White page, a red square and a blue square.
fn page_with_two_squares() -> Raster {
    drawn(60, 40, &|x, y| match (x, y) {
        (6..=25, 10..=29) => [0.85, 0.1, 0.1, 1.0],
        (34..=53, 10..=29) => [0.1, 0.2, 0.85, 1.0],
        _ => [1.0, 1.0, 1.0, 1.0],
    })
}

#[test]
fn a_keyed_colour_gets_no_shape() {
    let img = page_with_two_squares();
    let mut cfg = Preset::Logo.config();
    cfg.segment.colors = 3;
    let plain = trace(&img, &cfg);
    assert_eq!(plain.shapes.len(), 3, "page plus two squares");
    cfg.segment.transparent_colors = vec![WHITE];
    let keyed = trace(&img, &cfg);
    assert_eq!(keyed.shapes.len(), 2, "only the squares are painted");
    assert!(
        keyed.shapes.iter().all(|s| luma8(s.color) < 250.0),
        "no shape may be white: {:?}",
        keyed.shapes.iter().map(|s| s.color).collect::<Vec<_>>()
    );
}

#[test]
fn several_colours_can_be_keyed_at_once() {
    let img = page_with_two_squares();
    let mut cfg = Preset::Logo.config();
    cfg.segment.colors = 3;
    cfg.segment.transparent_colors = vec![WHITE, Rgba8::opaque(26, 51, 217)];
    let out = trace(&img, &cfg);
    assert_eq!(out.shapes.len(), 1, "only the red square is left");
    assert!(out.shapes[0].color.r > 150 && out.shapes[0].color.b < 100);
}

#[test]
fn a_keyed_colour_enclosed_by_a_shape_leaves_a_real_hole() {
    // A blue square with a white square inside it, on a white page. Keying white
    // must punch the inner square out of the blue shape as a hole ring, not paint
    // a white shape over it.
    let img = drawn(50, 50, &|x, y| {
        if within(x, y, 8, 42) && !within(x, y, 20, 30) {
            [0.1, 0.2, 0.85, 1.0]
        } else {
            [1.0, 1.0, 1.0, 1.0]
        }
    });
    let mut cfg = Preset::Logo.config();
    cfg.segment.colors = 2;
    cfg.segment.transparent_colors = vec![WHITE];
    let out = trace(&img, &cfg);
    assert_eq!(out.shapes.len(), 1);
    assert_eq!(out.shapes[0].subpaths.len(), 2, "outer boundary plus the hole");
}

#[test]
fn a_key_that_is_not_in_the_image_changes_nothing() {
    let img = page_with_two_squares();
    let mut cfg = Preset::Logo.config();
    cfg.segment.colors = 3;
    let plain = trace(&img, &cfg);
    cfg.segment.transparent_colors = vec![Rgba8::opaque(0, 200, 0)];
    let keyed = trace(&img, &cfg);
    assert_eq!(plain.shapes.len(), keyed.shapes.len());
    assert_eq!(plain.complexity().segments, keyed.complexity().segments);
}

#[test]
fn keying_a_background_leaves_the_remaining_edges_untouched() {
    // An anti-aliased disc on white. The disc's outline is reconstructed from the
    // blend between the disc and the white around it, so keying the white out
    // must not disturb that: the surviving shape has to be geometrically
    // identical to the one traced without keying, and still sit on the true edge
    // to sub-pixel accuracy.
    let img = drawn(64, 64, &|x, y| {
        let d = ((x as f64 + 0.5 - 32.0).powi(2) + (y as f64 + 0.5 - 32.0).powi(2)).sqrt();
        let v = 1.0 - ((20.0 - d).clamp(-0.5, 0.5) + 0.5) as f32;
        [v, v, v, 1.0]
    });
    let mut cfg = Preset::BlackAndWhite.config();
    let plain = trace(&img, &cfg);
    cfg.segment.transparent_colors = vec![WHITE];
    let keyed = trace(&img, &cfg);
    let ink = |v: &VectorImage| -> Vec<Vec<(f64, f64)>> {
        let s = v.shapes.iter().find(|s| luma8(s.color) < 128.0).expect("ink shape");
        s.subpaths
            .iter()
            .map(|sp| flatten(sp, 0.01).iter().map(|p| (p.x, p.y)).collect())
            .collect()
    };
    assert_eq!(keyed.shapes.len(), 1);
    assert_eq!(ink(&plain), ink(&keyed), "keying must not move the ink's edges");

    let b = keyed.bounds(&|sp: &SubPath| flatten(sp, 0.25).iter().map(|p| px(p.x, p.y)).collect());
    let (w, h) = (as_float(b.width() as i64), as_float(b.height() as i64));
    assert!(
        (w - 40.0).abs() < 0.25 && (h - 40.0).abs() < 0.25,
        "disc traced as {w:.3} x {h:.3}, expected about 40 x 40"
    );
}

#[test]
fn every_subpath_is_closed_and_welded() {
    let img = drawn(40, 40, &|x, y| match (x / 13, y / 13) {
        (0, _) => [0.9, 0.1, 0.1, 1.0],
        (1, 0) => [0.1, 0.9, 0.1, 1.0],
        (1, _) => [0.1, 0.1, 0.9, 1.0],
        _ => [0.9, 0.9, 0.1, 1.0],
    });
    let mut cfg = Preset::Clipart.config();
    cfg.segment.colors = 4;
    let out = trace(&img, &cfg);
    assert!(!out.shapes.is_empty());
    for s in &out.shapes {
        for sp in &s.subpaths {
            assert!(sp.closed);
            assert!(
                sp.end().dist(sp.start) < 1e-9,
                "subpath not welded: {:?} vs {:?}",
                sp.end(),
                sp.start
            );
        }
    }
}

#[test]
fn pixel_art_preset_preserves_hard_blocks() {
    // 4x scaled pixel art: the block edges are intentional and must survive
    // exactly, with no sub-pixel guessing and no rounding.
    let img = drawn(32, 32, &|x, y| {
        let v = if ((x / 4) + (y / 4)) % 2 == 0 { 0.1 } else { 0.9 };
        [v, v, v, 1.0]
    });
    let c = trace(&img, &Preset::PixelArt.config()).complexity();
    assert_eq!(c.handles, 0, "pixel art must stay perfectly rectilinear");
    assert!(c.shapes >= 2);
}

#[test]
fn handles_degenerate_images() {
    for (w, h) in [(1u32, 1u32), (1, 16), (16, 1), (2, 2)] {
        let img = drawn(w, h, &|_, _| [0.4, 0.5, 0.6, 1.0]);
        let out = trace(&img, &Preset::Logo.config());
        assert_eq!(out.width, w as f64);
        assert_eq!(out.height, h as f64);
    }
}

#[test]
fn grouping_merges_same_coloured_regions() {
    let img = drawn(40, 20, &|x, y| match (x, y) {
        (4..=11, 5..=14) | (26..=33, 5..=14) => [0.1, 0.1, 0.1, 1.0],
        _ => [1.0, 1.0, 1.0, 1.0],
    });
    let mut cfg = Preset::BlackAndWhite.config();
    cfg.output.group_by_color = true;
    let grouped = trace(&img, &cfg);
    cfg.output.group_by_color = false;
    let split = trace(&img, &cfg);
    assert_eq!(grouped.shapes.len(), 2, "one shape per colour");
    assert_eq!(split.shapes.len(), 3, "background plus two squares");
    // Grouping must not change the geometry, only how it is bundled.
    assert_eq!(grouped.complexity().segments, split.complexity().segments);
}

#[test]
fn renders_a_traced_square_back_to_the_original() {
    let img = drawn(64, 64, &|x, y| {
        if within(x, y, 16, 48) {
            [0.1, 0.2, 0.8, 1.0]
        } else {
            [1.0, 1.0, 1.0, 1.0]
        }
    });
    let mut cfg = Preset::Logo.config();
    cfg.segment.colors = 2;
    let report = score(&img, &trace(&img, &cfg));
    assert!(
        report.match_pct > 99.0,
        "hard-edged square round-tripped at only {:.2}%",
        report.match_pct
    );
    assert!(report.complexity.total_points() > 0);
    assert!(report.output_bytes > 0);
}

fn px(x: f64, y: f64) -> vectify::export::Point {
    vectify::export::Point { x: billionths(x), y: billionths(y) }
}

fn scene(w: u32, h: u32, background: Rgba8, items: Vec<(SceneShape, Rgba8)>) -> Scene {
    let items = items.into_iter().map(|(shape, color)| SceneItem { shape, color }).collect();
    Scene { width: w, height: h, background, items }
}

fn over(c: [f32; 4], color: Rgba8) -> [f32; 4] {
    let s = to_f32(color);
    let a = s[3];
    [
        s[0] * a + c[0] * (1.0 - a),
        s[1] * a + c[1] * (1.0 - a),
        s[2] * a + c[2] * (1.0 - a),
        a + c[3] * (1.0 - a),
    ]
}

fn rendered(scene: &Scene, ss: u32) -> Raster {
    scene.render(
        &over,
        &|a: [f32; 4], b: [f32; 4]| [a[0] + b[0], a[1] + b[1], a[2] + b[2], a[3] + b[3]],
        &|sum: [f32; 4], n: u32| sum.map(|v| v * (1.0 / n as f32)),
        to_f32(scene.background),
        [0.0; 4],
        ss,
    )
}

fn circle_scene() -> Scene {
    scene(
        160,
        160,
        rgb(250, 250, 245),
        vec![(
            SceneShape::Circle { centre: px(80.3, 79.7), radius: billionths(52.4) },
            rgb(25, 110, 190),
        )],
    )
}

fn slant_scene() -> Scene {
    scene(
        180,
        140,
        rgb(255, 255, 255),
        vec![
            (
                SceneShape::Polygon(vec![
                    px(10.0, 12.3),
                    px(170.0, 40.7),
                    px(170.0, 58.1),
                    px(10.0, 29.9),
                ]),
                rgb(40, 40, 40),
            ),
            (
                SceneShape::Polygon(vec![px(90.0, 72.5), px(170.0, 118.5), px(110.0, 132.0)]),
                rgb(20, 140, 90),
            ),
        ],
    )
}

fn star_scene() -> Scene {
    let corner = |c: vectify::export::Point, r: i64, turn: Turn| {
        let t = turn.part as f64 / turn.of as f64 * std::f64::consts::TAU + as_float(turn.plus);
        px(as_float(c.x) + as_float(r) * t.cos(), as_float(c.y) + as_float(r) * t.sin())
    };
    let shape = star(&corner, px(80.0, 80.0), billionths(66.0), billionths(27.0), 7);
    scene(160, 160, rgb(255, 255, 255), vec![(shape, rgb(230, 160, 20))])
}

/// The tracer must not give away much against a perfect answer.
fn approaches_the_ceiling(name: &str, scene: &Scene) {
    let img = rendered(scene, 16);
    let ideal = painted(&scene.to_ideal_svg(), scene.width, scene.height);
    let ceiling = compare(&img, &ideal).match_pct;
    let found = auto_select(&img, 6, 2, &Vec::new(), &|_, _| {});
    let best = &found[0];
    assert!(
        ceiling > 95.0,
        "{name}: ceiling {ceiling:.2}% is implausibly low; the calibration itself is broken"
    );
    assert!(
        best.report.match_pct >= ceiling - 1.5,
        "{name}: achieved {:.2}% against a ceiling of {ceiling:.2}%",
        best.report.match_pct
    );
    assert!(best.report.points() > 0);
}

#[test]
fn tracer_approaches_the_theoretical_ceiling() {
    approaches_the_ceiling("circle", &circle_scene());
    approaches_the_ceiling("slants", &slant_scene());
    approaches_the_ceiling("star", &star_scene());
}

#[test]
fn subpixel_reconstruction_beats_pixel_snapping_end_to_end() {
    // Turning sub-pixel reconstruction off should visibly cost accuracy on
    // anti-aliased artwork.
    let img = rendered(&circle_scene(), 16);
    let mut cfg = Preset::Logo.config();
    cfg.segment.colors = 2;
    let with = score(&img, &trace(&img, &cfg));
    cfg.subpixel.enabled = false;
    let without = score(&img, &trace(&img, &cfg));
    assert!(
        with.match_pct > without.match_pct,
        "sub-pixel reconstruction did not help: {:.2}% vs {:.2}%",
        with.match_pct,
        without.match_pct
    );
    assert!(
        with.mean_delta_e < without.mean_delta_e * 0.8,
        "mean error barely improved: {:.3} vs {:.3}",
        with.mean_delta_e,
        without.mean_delta_e
    );
}

#[test]
fn hard_edged_input_round_trips_exactly() {
    // No anti-aliasing means no ambiguity: the tracer should reproduce this
    // pixel for pixel.
    let boxes = scene(
        120,
        90,
        rgb(255, 255, 255),
        vec![
            (
                SceneShape::Polygon(vec![
                    px(15.0, 15.0),
                    px(75.0, 15.0),
                    px(75.0, 55.0),
                    px(15.0, 55.0),
                ]),
                rgb(30, 60, 180),
            ),
            (
                SceneShape::Polygon(vec![
                    px(55.0, 40.0),
                    px(105.0, 40.0),
                    px(105.0, 75.0),
                    px(55.0, 75.0),
                ]),
                rgb(220, 60, 40),
            ),
        ],
    );
    let img = rendered(&boxes, 1);
    let mut cfg = Preset::Logo.config();
    cfg.segment.colors = 3;
    let r = score(&img, &trace(&img, &cfg));
    assert!(r.match_pct > 99.9, "aliased rectangles only reached {:.2}%", r.match_pct);
    // Two overlapping rectangles make an L and a rectangle: a handful of
    // corners, all of them lines.
    assert!(
        r.complexity.handles == 0,
        "rectilinear art should need no curve handles, got {}",
        r.complexity.handles
    );
}

#[test]
fn calibration_harness_can_fail() {
    let a = rendered(&circle_scene(), 16);
    let wrong = painted(&star_scene().to_ideal_svg(), 160, 160);
    let match_pct = compare(&a, &wrong).match_pct;
    assert!(match_pct < 80.0, "mismatched scenes scored {match_pct:.2}%");
}

#[test]
fn a_trace_says_what_it_dealt_with() {
    let stats = trace_of(&dark_square(), &VectorizeConfig::default(), &LabCache::new()).stats;
    assert_eq!(stats.regions, 2);
    // The four sides of the image and the border of the square.
    assert_eq!(stats.arcs, 5);
    assert_eq!(stats.contour_vertices, 4 * 21 + 41);
    // Two ends of each side, and the corners of the square.
    assert_eq!(stats.corners, 12);
}

#[test]
fn stages_are_done_in_their_order() {
    let img = dark_square();
    let cfg = VectorizeConfig::default();
    let seg = segment_image(&img, &cfg.segment, &LabCache::new());
    let done = std::cell::RefCell::new(Vec::new());
    vectify::trace::trace(
        &|p: GridPoint| Point::new(p.x as f64, p.y as f64),
        &edge_calls(&seg, &img, &cfg.subpixel),
        &bend_calls(&cfg.corners),
        &fit_calls(&cfg.fit),
        &|p: Point| p,
        &|r: f64| r,
        &|stage: Stage| done.borrow_mut().push(stage),
        &seg,
        &cfg,
        20.0,
        20.0,
    );
    let order =
        [Stage::Topology, Stage::Subpixel, Stage::Corners, Stage::Fit, Stage::Assemble];
    assert_eq!(done.into_inner(), order);
}

// ---- Comparison ---------------------------------------------------------

fn solid(w: u32, h: u32, c: [f32; 4]) -> Raster {
    drawn(w, h, &|_, _| c)
}

#[test]
fn identical_images_score_perfectly() {
    let a = solid(16, 16, [0.3, 0.5, 0.7, 1.0]);
    let r = compare(&a, &a);
    assert!((r.match_pct - 100.0).abs() < 1e-9);
    assert!(r.rmse < 1e-9);
    assert!(r.psnr >= 99.0);
    assert!(r.ssim > 0.999);
    assert!(r.max_delta_e < 1e-4);
}

#[test]
fn a_visibly_different_image_scores_badly() {
    let a = solid(16, 16, [0.0, 0.0, 0.0, 1.0]);
    let b = solid(16, 16, [1.0, 1.0, 1.0, 1.0]);
    let r = compare(&a, &b);
    assert!(r.match_pct < 1.0);
    assert!(r.ssim < 0.5);
    assert!(r.mean_delta_e > 50.0);
}

#[test]
fn an_imperceptible_shift_still_counts_as_a_match() {
    // One level of 8-bit difference is far below the perceptual threshold.
    // RMSE notices it; the headline metric correctly does not.
    let a = solid(16, 16, [0.5, 0.5, 0.5, 1.0]);
    let b = solid(16, 16, [0.5 + 1.0 / 255.0, 0.5, 0.5, 1.0]);
    let r = compare(&a, &b);
    assert!(r.match_pct > 99.9, "match {}", r.match_pct);
    assert!(r.rmse > 0.0, "rmse should still register the difference");
    assert!((r.rmse - (1.0f64 / 3.0).sqrt()).abs() < 1e-4, "rmse {}", r.rmse);
    assert!((r.psnr - 20.0 * (255.0 / r.rmse).log10()).abs() < 1e-9);
}

#[test]
fn the_threshold_only_moves_matches() {
    let a = drawn(24, 16, &|x, y| [x as f32 / 24.0, y as f32 / 16.0, 0.4, 1.0]);
    let b = drawn(24, 16, &|x, y| [x as f32 / 24.0, (y as f32 + x as f32 / 8.0) / 16.0, 0.4, 1.0]);
    let all: Vec<Compared> =
        [-1.0, 0.0, 1.0, 4.0, 1e9].iter().map(|t| compare_at(&a, &b, *t)).collect();
    for w in all.windows(2) {
        assert!(w[0].match_pct <= w[1].match_pct);
        assert_eq!(Compared { match_pct: 0.0, ..w[0] }, Compared { match_pct: 0.0, ..w[1] });
    }
    assert_eq!((all[0].match_pct, all[4].match_pct), (0.0, 100.0));
    assert!(0.0 < all[2].match_pct && all[2].match_pct < all[3].match_pct);
    let c = all[0];
    assert!(c.mean_delta_e <= c.max_delta_e && c.p95_delta_e <= c.max_delta_e);
    assert!(c.psnr < 99.0 && (0.0..=1.0).contains(&c.ssim));
}

#[test]
fn transparency_is_judged_on_the_background() {
    let clear = solid(8, 8, [0.1, 0.2, 0.3, 0.0]);
    let white = solid(8, 8, [1.0, 1.0, 1.0, 1.0]);
    let r = compare(&clear, &white);
    assert_eq!((r.match_pct, r.rmse, r.psnr), (100.0, 0.0, 99.0));
}

#[test]
fn images_with_nothing_in_common_are_not_alike() {
    let none = Raster { width: 0, height: 3, data: Vec::new() };
    let r = compare(&none, &solid(2, 2, [0.5; 4]));
    assert_eq!((r.match_pct, r.max_delta_e, r.ssim, r.psnr), (0.0, 0.0, 0.0, 99.0));
    // Negatives of one another are as unlike as can be.
    let a = drawn(16, 16, &|x, _| if x % 2 == 0 { [0.0, 0.0, 0.0, 1.0] } else { [1.0; 4] });
    let b = drawn(16, 16, &|x, _| if x % 2 == 1 { [0.0, 0.0, 0.0, 1.0] } else { [1.0; 4] });
    assert_eq!(compare(&a, &b).ssim, 0.0);
}

#[test]
fn auto_select_finds_a_good_config_for_a_simple_logo() {
    let img = drawn(96, 96, &|x, y| {
        if within(x, y, 34, 62) {
            [0.15, 0.3, 0.8, 1.0]
        } else if within(x, y, 20, 76) {
            [0.85, 0.15, 0.2, 1.0]
        } else {
            [1.0, 1.0, 1.0, 1.0]
        }
    });
    let found = auto_select(&img, 5, 1, &Vec::new(), &|_, _| {});
    let best = &found[0];
    assert!(
        best.report.match_pct >= 99.0,
        "best only reached {:.2}% ({} points)",
        best.report.match_pct,
        best.report.points()
    );
    // Three nested rectangles is a handful of corners, not hundreds.
    assert!(
        best.report.points() < 80,
        "best used {} points: {:?}",
        best.report.points(),
        best.report.complexity
    );
    // Ranking must actually be applied.
    let budget = derive_point_budget(img.width, img.height);
    for w in found.windows(2) {
        let order = better(&w[1].score, &w[0].score, billionths(99.0), budget);
        assert_ne!(order, std::cmp::Ordering::Less);
    }
}

#[test]
fn progress_is_reported() {
    let img = drawn(48, 48, &|_, _| [0.4, 0.6, 0.2, 1.0]);
    let seen = std::cell::RefCell::new(Vec::new());
    auto_select(&img, 3, 1, &Vec::new(), &|done, total| seen.borrow_mut().push((done, total)));
    let seen = seen.into_inner();
    assert!(!seen.is_empty(), "no progress callbacks");
    assert!(seen.iter().all(|(d, t)| d <= t));
}

#[test]
fn keyed_colours_reach_every_candidate_and_are_not_scored_as_errors() {
    // Key out black, which the scorer's white background would otherwise count
    // as a total mismatch for every pixel the trace leaves empty.
    let img = drawn(64, 64, &|x, y| {
        if within(x, y, 16, 48) {
            [0.9, 0.7, 0.1, 1.0]
        } else {
            [0.0, 0.0, 0.0, 1.0]
        }
    });
    let black = Rgba8::opaque(0, 0, 0);
    let found = auto_select(&img, 4, 1, &vec![black], &|_, _| {});
    assert!(!found.is_empty());
    for c in &found {
        assert_eq!(
            c.config.segment.transparent_colors,
            vec![black],
            "candidate {:?} lost the keyed colour",
            c.label
        );
    }
    let best = &found[0];
    assert!(
        best.report.match_pct >= 99.0,
        "a correctly keyed trace should match its reference; got {:.2}%",
        best.report.match_pct
    );
    assert_eq!(best.report.complexity.shapes, 1, "only the yellow square is painted");
}
