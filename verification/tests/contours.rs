#![allow(dead_code)]
//! Corner detection and curve fitting, with the measurements that they ask for.

use std::ops::{Add, AddAssign, Div, Mul, Neg, Sub};

use vectify::config::{CornerConfig, FitConfig};
use vectify::corners::{
    self, contour_corners, effective_scales, is_persistent, plan_smoothing, Analysis, Indexer,
    Smoothing,
};
use vectify::cracks::Arc;
use vectify::fitting as fit;
use vectify::smoothing::smooth_contour;
use vectify::topology::Topology;

fn as_float(b: i64) -> f64 {
    b as f64 / 1e9
}

#[derive(Clone, Copy, Debug, Default, PartialEq)]
struct Point {
    x: f64,
    y: f64,
}

const fn pt(x: f64, y: f64) -> Point {
    Point { x, y }
}

impl Point {
    const ZERO: Point = Point { x: 0.0, y: 0.0 };

    fn new(x: f64, y: f64) -> Self {
        Point { x, y }
    }

    fn length(self) -> f64 {
        self.x.hypot(self.y)
    }

    fn length_sq(self) -> f64 {
        self.x * self.x + self.y * self.y
    }

    fn dot(self, o: Point) -> f64 {
        self.x * o.x + self.y * o.y
    }

    /// 2D cross product: the z component of the equivalent 3D cross product.
    fn cross(self, o: Point) -> f64 {
        self.x * o.y - self.y * o.x
    }

    fn dist(self, o: Point) -> f64 {
        (self - o).length()
    }

    fn dist_sq(self, o: Point) -> f64 {
        (self - o).length_sq()
    }

    fn normalized(self) -> Point {
        let l = self.length();
        if l < 1e-12 {
            Point::ZERO
        } else {
            Point { x: self.x / l, y: self.y / l }
        }
    }

    /// Rotate by 90 degrees. In a y-down coordinate system this yields the
    /// leftward normal of a direction vector.
    fn perp(self) -> Point {
        Point { x: self.y, y: -self.x }
    }

    fn lerp(self, o: Point, t: f64) -> Point {
        Point {
            x: self.x + (o.x - self.x) * t,
            y: self.y + (o.y - self.y) * t,
        }
    }

    fn is_finite(self) -> bool {
        self.x.is_finite() && self.y.is_finite()
    }

    /// Round to a fixed number of decimal places. Emitting geometry through
    /// this keeps shared borders byte-identical between adjacent shapes.
    fn round_to(self, decimals: u32) -> Point {
        let f = 10f64.powi(decimals as i32);
        Point {
            x: (self.x * f).round() / f,
            y: (self.y * f).round() / f,
        }
    }
}

impl Add for Point {
    type Output = Point;
    fn add(self, o: Point) -> Point {
        Point { x: self.x + o.x, y: self.y + o.y }
    }
}

impl AddAssign for Point {
    fn add_assign(&mut self, o: Point) {
        self.x += o.x;
        self.y += o.y;
    }
}

impl Sub for Point {
    type Output = Point;
    fn sub(self, o: Point) -> Point {
        Point { x: self.x - o.x, y: self.y - o.y }
    }
}

impl Mul<f64> for Point {
    type Output = Point;
    fn mul(self, s: f64) -> Point {
        Point { x: self.x * s, y: self.y * s }
    }
}

impl Div<f64> for Point {
    type Output = Point;
    fn div(self, s: f64) -> Point {
        Point { x: self.x / s, y: self.y / s }
    }
}

impl Neg for Point {
    type Output = Point;
    fn neg(self) -> Point {
        Point { x: -self.x, y: -self.y }
    }
}

/// Distance from p to the finite segment a-b.
fn dist_point_segment(p: Point, a: Point, b: Point) -> f64 {
    let d = b - a;
    let l2 = d.length_sq();
    if l2 < 1e-24 {
        return p.dist(a);
    }
    let t = ((p - a).dot(d) / l2).clamp(0.0, 1.0);
    p.dist(a + d * t)
}

type Seg = vectify::path::Seg<Point, f64>;

type SubPath = vectify::path::SubPath<Point, f64>;

/// Flatten a subpath to a polyline, for DXF export. The points of each curve
/// are computed here; the library strings them together.
fn flatten(sp: &SubPath, tol: f64) -> Vec<Point> {
    let mut cur = sp.start;
    let mut curves = Vec::with_capacity(sp.segs.len());
    for seg in &sp.segs {
        let mut pts = Vec::new();
        match *seg {
            Seg::Line { .. } => {}
            Seg::Cubic { c1, c2, to } => flatten_cubic(cur, c1, c2, to, tol, &mut pts),
            Seg::Arc { r, large, sweep, to } => {
                let mut from = cur;
                for c in arc_to_cubics(cur, r, large, sweep, to) {
                    flatten_cubic(from, c.0, c.1, c.2, tol, &mut pts);
                    from = c.2;
                }
            }
        }
        cur = seg.end();
        curves.push(pts);
    }
    sp.flatten(&curves)
}

fn eval_cubic(p0: Point, p1: Point, p2: Point, p3: Point, t: f64) -> Point {
    let mt = 1.0 - t;
    let a = mt * mt * mt;
    let b = 3.0 * mt * mt * t;
    let c = 3.0 * mt * t * t;
    let d = t * t * t;
    Point {
        x: a * p0.x + b * p1.x + c * p2.x + d * p3.x,
        y: a * p0.y + b * p1.y + c * p2.y + d * p3.y,
    }
}

fn cubic_tangent(p0: Point, p1: Point, p2: Point, p3: Point, t: f64) -> Point {
    let mt = 1.0 - t;
    (p1 - p0) * (3.0 * mt * mt) + (p2 - p1) * (6.0 * mt * t) + (p3 - p2) * (3.0 * t * t)
}

fn flatten_cubic(p0: Point, p1: Point, p2: Point, p3: Point, tol: f64, out: &mut Vec<Point>) {
    // Wang's formula for the subdivision count that keeps the polyline within
    // tol of the curve.
    let d1 = (p0 - p1 * 2.0 + p2).length();
    let d2 = (p1 - p2 * 2.0 + p3).length();
    let m = d1.max(d2);
    let n = if m <= 0.0 {
        1
    } else {
        (((6.0 * m) / (8.0 * tol.max(1e-6))).sqrt().ceil() as usize).clamp(1, 256)
    };
    for i in 1..=n {
        out.push(eval_cubic(p0, p1, p2, p3, i as f64 / n as f64));
    }
}

/// Convert a circular arc into up to four cubic Beziers, each spanning at most
/// a quarter turn.
fn arc_to_cubics(
    from: Point,
    r: f64,
    large: bool,
    sweep: bool,
    to: Point,
) -> Vec<(Point, Point, Point)> {
    let chord = to - from;
    let d = chord.length();
    let mut out = Vec::new();
    if d < 1e-12 {
        return out;
    }
    let r = r.abs().max(d / 2.0);
    let h = (r * r - d * d / 4.0).max(0.0).sqrt();
    let mid = from.lerp(to, 0.5);
    // The perpendicular offset selects which of the two candidate centres the
    // large/sweep flag combination asks for. Both candidates put the endpoints
    // on a circle of radius r, so only the flag semantics distinguish them --
    // which is why a sign error here is invisible to a "points lie on the
    // circle" check and has to be tested against the sweep directly.
    // Derived from the SVG endpoint-to-centre conversion: the offset is
    // positive along perp(chord) exactly when the two flags agree.
    let n = chord.perp().normalized();
    let sign = if large == sweep { 1.0 } else { -1.0 };
    let centre = mid + n * (h * sign);

    let a0 = (from.y - centre.y).atan2(from.x - centre.x);
    let a1 = (to.y - centre.y).atan2(to.x - centre.x);
    let mut sweep_angle = a1 - a0;
    // In y-down space the SVG sweep flag corresponds to increasing angle.
    if sweep && sweep_angle < 0.0 {
        sweep_angle += std::f64::consts::TAU;
    }
    if !sweep && sweep_angle > 0.0 {
        sweep_angle -= std::f64::consts::TAU;
    }

    let n_seg = ((sweep_angle.abs() / std::f64::consts::FRAC_PI_2).ceil() as usize).max(1);
    let delta = sweep_angle / n_seg as f64;
    let k = (4.0 / 3.0) * (delta / 4.0).tan();
    let mut theta = a0;
    for _ in 0..n_seg {
        let t1 = theta + delta;
        let p0 = Point::new(centre.x + r * theta.cos(), centre.y + r * theta.sin());
        let p3 = Point::new(centre.x + r * t1.cos(), centre.y + r * t1.sin());
        let d0 = Point::new(-theta.sin(), theta.cos()) * (r * k);
        let d1 = Point::new(-t1.sin(), t1.cos()) * (r * k);
        out.push((p0 + d0, p3 - d1, p3));
        theta = t1;
    }
    if let Some(last) = out.last_mut() {
        last.2 = to;
    }
    out
}

const LAMBDA: f64 = 0.50;

const MU: f64 = -0.53;

/// Absolute turn angle at `p`, between a point before and a point after it.
fn turn(a: Point, p: Point, b: Point) -> Option<f64> {
    let back = p - a;
    let fwd = b - p;
    if back.length_sq() < 1e-18 || fwd.length_sq() < 1e-18 {
        return None;
    }
    let u = back.normalized();
    let v = fwd.normalized();
    Some(u.cross(v).atan2(u.dot(v)).abs())
}

/// One step of smoothing.
fn relax(a: Point, p: Point, b: Point, inflate: bool) -> Point {
    let lap = (a + b) * 0.5 - p;
    p + lap * if inflate { MU } else { LAMBDA }
}

fn vanished(noise: f64, fine: f64, coarse: f64) -> f64 {
    noise + ((fine - coarse) / std::f64::consts::FRAC_PI_2).clamp(0.0, 1.0)
}

fn mean_bits(sum: f64, tested: usize) -> i64 {
    (sum / tested as f64).to_bits() as i64
}

/// What the multi-scale analysis found on one contour.
struct Found {
    corners: Vec<usize>,
    /// In 0..1.
    noise: f64,
}

/// Analyse one contour. `closed` marks a loop whose final point repeats its
/// first.
fn analyze_contour(pts: &Vec<Point>, closed: bool, cfg: &CornerConfig) -> Found {
    let threshold = as_float(cfg.threshold_deg).to_radians();
    let a: Analysis<f64> = corners::analyze_contour(
        &turn,
        &|t: f64| t >= threshold,
        &|sum: f64, t: f64| sum + t,
        &mean_bits,
        &vanished,
        0.0,
        0.0,
        pts,
        closed,
        cfg,
    );
    let noise = if a.measured == 0 { 0.0 } else { a.noise / a.measured as f64 };
    Found { corners: a.corners, noise }
}

/// One-sided tangent at index `i`, looking `forward` or backward, averaged over
/// a few vertices so that a single noisy step does not set the direction.
fn one_sided_tangent(pts: &[Point], i: usize, forward: bool) -> Point {
    let n = pts.len();
    let mut acc = Point::ZERO;
    let mut weight = 0.0;
    for k in 1..=3usize {
        let j = if forward {
            if i + k >= n {
                break;
            }
            i + k
        } else {
            if i < k {
                break;
            }
            i - k
        };
        let d = pts[j] - pts[i];
        if d.length_sq() < 1e-18 {
            continue;
        }
        // Nearer samples describe the direction at `i` more faithfully.
        let w = 1.0 / k as f64;
        acc += d.normalized() * w;
        weight += w;
    }
    if weight <= 0.0 || acc.length_sq() < 1e-18 {
        // Degenerate: fall back to the chord across whatever exists.
        let j = if forward { n - 1 } else { 0 };
        let d = pts[j] - pts[i];
        return d.normalized();
    }
    acc.normalized()
}

/// Smooth tangent through an interior point, used where a run is split for
/// tolerance rather than at a real corner. Keeping both sides parallel here is
/// what stops the split from showing up as a visible kink.
fn centre_tangent(pts: &[Point], i: usize) -> Point {
    let a = one_sided_tangent(pts, i, false);
    let b = one_sided_tangent(pts, i, true);
    let d = b - a;
    if d.length_sq() < 1e-18 {
        b
    } else {
        d.normalized()
    }
}

fn bezier_basis(u: f64) -> [f64; 4] {
    let mu = 1.0 - u;
    [
        mu * mu * mu,
        3.0 * mu * mu * u,
        3.0 * mu * u * u,
        u * u * u,
    ]
}

/// Chord-length parameterisation, normalised to 0..1.
fn chord_params(pts: &[Point]) -> Vec<f64> {
    let mut u = Vec::with_capacity(pts.len());
    u.push(0.0);
    let mut total = 0.0;
    for i in 1..pts.len() {
        total += pts[i].dist(pts[i - 1]);
        u.push(total);
    }
    if total <= 1e-12 {
        let n = pts.len().max(2) - 1;
        return (0..pts.len()).map(|i| i as f64 / n as f64).collect();
    }
    for v in u.iter_mut() {
        *v /= total;
    }
    u
}

/// Schneider's least-squares cubic with both end tangents fixed. Solves only
/// for the two handle lengths.
fn fit_cubic_with_tangents(pts: &[Point], u: &[f64], t1: Point, t2: Point) -> (Point, Point) {
    let p0 = pts[0];
    let p3 = pts[pts.len() - 1];
    let default_alpha = p0.dist(p3) / 3.0;

    let mut c00 = 0.0;
    let mut c01 = 0.0;
    let mut c11 = 0.0;
    let mut x0 = 0.0;
    let mut x1 = 0.0;

    for (i, &p) in pts.iter().enumerate() {
        let b = bezier_basis(u[i]);
        let a0 = t1 * b[1];
        let a1 = t2 * b[2];
        c00 += a0.dot(a0);
        c01 += a0.dot(a1);
        c11 += a1.dot(a1);
        // Residual after accounting for the fixed endpoints.
        let tmp = p - (p0 * (b[0] + b[1]) + p3 * (b[2] + b[3]));
        x0 += a0.dot(tmp);
        x1 += a1.dot(tmp);
    }

    let det = c00 * c11 - c01 * c01;
    let (mut alpha_l, mut alpha_r) = if det.abs() < 1e-12 {
        (default_alpha, default_alpha)
    } else {
        (
            (x0 * c11 - x1 * c01) / det,
            (c00 * x1 - c01 * x0) / det,
        )
    };

    // Negative or vanishing handles fold the curve back on itself. Wolberg's
    // standard remedy: fall back to the chord-thirds heuristic.
    let eps = p0.dist(p3) * 1e-6;
    if !alpha_l.is_finite() || alpha_l < eps {
        alpha_l = default_alpha;
    }
    if !alpha_r.is_finite() || alpha_r < eps {
        alpha_r = default_alpha;
    }
    (p0 + t1 * alpha_l, p3 + t2 * alpha_r)
}

/// Largest distance from any sample to the curve at its own parameter, and the
/// index where it occurs.
fn cubic_max_error(pts: &[Point], u: &[f64], p0: Point, p1: Point, p2: Point, p3: Point) -> (f64, usize) {
    let mut worst = 0.0;
    let mut at = pts.len() / 2;
    for (i, &p) in pts.iter().enumerate() {
        let d = eval_cubic(p0, p1, p2, p3, u[i]).dist(p);
        if d > worst {
            worst = d;
            at = i;
        }
    }
    (worst, at)
}

/// One Newton-Raphson step per sample, moving each parameter toward the closest
/// point on the curve. Without this, chord-length parameters alone leave a fit
/// noticeably worse than the curve is capable of.
fn reparameterise(pts: &[Point], u: &[f64], p0: Point, p1: Point, p2: Point, p3: Point) -> Vec<f64> {
    pts.iter()
        .enumerate()
        .map(|(i, &p)| {
            let t = u[i];
            let q = eval_cubic(p0, p1, p2, p3, t);
            let d1 = cubic_tangent(p0, p1, p2, p3, t);
            // Second derivative of the cubic.
            let d2 = (p2 - p1 * 2.0 + p0) * (6.0 * (1.0 - t)) + (p3 - p2 * 2.0 + p1) * (6.0 * t);
            let diff = q - p;
            let num = diff.dot(d1);
            let den = d1.dot(d1) + diff.dot(d2);
            if den.abs() < 1e-12 {
                t
            } else {
                (t - num / den).clamp(0.0, 1.0)
            }
        })
        .collect()
}

/// Algebraic circle fit (Kasa), on mean-centred data for conditioning.
/// Returns centre and radius.
fn fit_circle(pts: &[Point]) -> Option<(Point, f64)> {
    let n = pts.len();
    if n < 3 {
        return None;
    }
    let mean = pts.iter().fold(Point::ZERO, |a, &b| a + b) / n as f64;
    let (mut sxx, mut syy, mut sxy, mut sxz, mut syz, mut sz) = (0.0, 0.0, 0.0, 0.0, 0.0, 0.0);
    for &p in pts {
        let x = p.x - mean.x;
        let y = p.y - mean.y;
        let z = x * x + y * y;
        sxx += x * x;
        syy += y * y;
        sxy += x * y;
        sxz += x * z;
        syz += y * z;
        sz += z;
    }
    let det = sxx * syy - sxy * sxy;
    if det.abs() < 1e-12 {
        return None; // collinear
    }
    let d = (-sxz * syy + syz * sxy) / det;
    let e = (-syz * sxx + sxz * sxy) / det;
    let f = -sz / n as f64;
    let cx = -d / 2.0;
    let cy = -e / 2.0;
    let r2 = cx * cx + cy * cy - f;
    if r2 <= 0.0 {
        return None;
    }
    Some((Point::new(cx + mean.x, cy + mean.y), r2.sqrt()))
}

/// Try to describe `pts` as a single circular arc within `tol`.
fn try_arc(pts: &[Point], tol: f64) -> Option<(f64, bool, bool)> {
    let (centre, r) = fit_circle(pts)?;
    // An enormous radius means the run is effectively straight, which the line
    // test already handles more cheaply and more stably.
    let span = pts[0].dist(pts[pts.len() - 1]);
    if r > span * 200.0 || r < 1e-6 {
        return None;
    }
    // Radial deviation is a necessary condition and cheap to reject on.
    for p in pts {
        if (p.dist(centre) - r).abs() > tol {
            return None;
        }
    }

    // Total swept angle, unwrapped along the run, gives both flags.
    let angle = |p: &Point| (p.y - centre.y).atan2(p.x - centre.x);
    let mut total = 0.0;
    for w in pts.windows(2) {
        let mut d = angle(&w[1]) - angle(&w[0]);
        while d > std::f64::consts::PI {
            d -= std::f64::consts::TAU;
        }
        while d < -std::f64::consts::PI {
            d += std::f64::consts::TAU;
        }
        total += d;
    }
    // A run that wraps almost all the way round cannot be one SVG arc.
    if total.abs() >= std::f64::consts::TAU * 0.97 || total.abs() < 1e-6 {
        return None;
    }

    let large = total.abs() > std::f64::consts::PI;
    let sweep = total > 0.0;

    // Verify by reconstruction rather than trusting the flag logic: build the
    // arc exactly as an exporter would and confirm it still passes through the
    // samples. A flag error is otherwise silent and produces a wildly wrong
    // curve.
    let cubics = arc_to_cubics(pts[0], r, large, sweep, pts[pts.len() - 1]);
    if cubics.is_empty() {
        return None;
    }
    let mut poly = vec![pts[0]];
    let mut cur = pts[0];
    for (c1, c2, end) in &cubics {
        for k in 1..=16 {
            poly.push(eval_cubic(cur, *c1, *c2, *end, k as f64 / 16.0));
        }
        cur = *end;
    }
    for p in pts {
        let mut best = f64::INFINITY;
        for w in poly.windows(2) {
            best = best.min(dist_point_segment(*p, w[0], w[1]));
        }
        if best > tol {
            return None;
        }
    }
    Some((r, large, sweep))
}

/// Largest distance from any sample point to the fitted curve.
fn max_deviation(pts: &[Point], segs: &[Seg]) -> f64 {
    if pts.is_empty() || segs.is_empty() {
        return 0.0;
    }
    // Flatten adaptively and far finer than any tolerance we check against.
    // A fixed subdivision count would charge long, strongly curved segments for
    // the chord error of the measuring stick rather than of the fit.
    let sub = SubPath { start: pts[0], segs: segs.to_vec(), closed: false };
    let poly = flatten(&sub, 1e-3);
    let mut worst: f64 = 0.0;
    for p in pts {
        let mut best = f64::INFINITY;
        for w in poly.windows(2) {
            best = best.min(dist_point_segment(*p, w[0], w[1]));
            if best <= 1e-12 {
                break;
            }
        }
        worst = worst.max(best);
    }
    worst
}

/// The questions that fitting asks of one contour.
struct Fitter<'a> {
    pts: &'a Vec<Point>,
    cfg: &'a FitConfig,
    tolerance: f64,
}

impl Fitter<'_> {
    /// Whether the straight line from `i0` to `i1` holds every sample.
    fn line(&self, i0: usize, i1: usize) -> bool {
        let span = &self.pts[i0..=i1];
        let worst = span
            .iter()
            .map(|p| dist_point_segment(*p, self.pts[i0], self.pts[i1]))
            .fold(0.0f64, f64::max);
        worst <= self.tolerance
    }

    /// The best cubic over a span, and the parameters after the last round of
    /// reparameterisation.
    fn rounds(&self, i0: usize, i1: usize, t1: Point, t2: Point) -> (Option<(f64, Point, Point)>, Vec<f64>) {
        let span = &self.pts[i0..=i1];
        let (p0, p3) = (self.pts[i0], self.pts[i1]);
        let mut u = chord_params(span);
        let mut best: Option<(f64, Point, Point)> = None;
        for _ in 0..=self.cfg.reparam_iterations {
            let (p1, p2) = fit_cubic_with_tangents(span, &u, t1, t2);
            let (err, _) = cubic_max_error(span, &u, p0, p1, p2, p3);
            if best.is_none_or(|b| err < b.0) {
                best = Some((err, p1, p2));
            }
            if err <= self.tolerance {
                break;
            }
            u = reparameterise(span, &u, p0, p1, p2, p3);
        }
        (best, u)
    }

    /// The handles of a cubic that holds every sample, if there is one.
    fn cubic(&self, i0: usize, i1: usize, t1: Point, t2: Point) -> Option<(Point, Point)> {
        let (best, _) = self.rounds(i0, i1, t1, t2);
        best.filter(|b| b.0 <= self.tolerance).map(|b| (b.1, b.2))
    }

    /// The sample at which the cubic strays furthest.
    fn worst(&self, i0: usize, i1: usize, t1: Point, t2: Point) -> usize {
        let span = &self.pts[i0..=i1];
        let (_, u) = self.rounds(i0, i1, t1, t2);
        let (p1, p2) = fit_cubic_with_tangents(span, &u, t1, t2);
        cubic_max_error(span, &u, self.pts[i0], p1, p2, self.pts[i1]).1
    }

    fn arc(&self, i0: usize, i1: usize) -> Option<(f64, bool, bool)> {
        try_arc(&self.pts[i0..=i1], self.tolerance)
    }

    /// Cubic `k` of the arc over a span.
    fn piece(&self, i0: usize, i1: usize, k: usize) -> Option<(Point, Point, Point)> {
        let (r, large, sweep) = self.arc(i0, i1)?;
        arc_to_cubics(self.pts[i0], r, large, sweep, self.pts[i1]).get(k).copied()
    }

    /// The tangents on both sides of a split.
    fn centre(&self, i: usize) -> (Point, Point) {
        let t = centre_tangent(self.pts, i);
        (-t, t)
    }

    fn side(&self, i: usize, forward: bool) -> Point {
        one_sided_tangent(self.pts, i, forward)
    }

    /// Fit a single run between two indices, with one-sided end tangents.
    fn span(&self, a: usize, b: usize) -> Vec<Seg> {
        let mut out = Vec::new();
        if b <= a || b >= self.pts.len() {
            return out;
        }
        fit::fit_run(
            &|i, j| self.line(i, j),
            &|i, j, s, t| self.cubic(i, j, s, t),
            &|i, j| self.arc(i, j),
            &|i, j, k| self.piece(i, j, k),
            &|i, j, s, t| self.worst(i, j, s, t),
            &|i| self.centre(i),
            self.pts,
            self.cfg,
            a,
            b,
            self.side(a, true),
            self.side(b, false),
            0,
            &mut out,
        );
        out
    }
}

/// Remove consecutive duplicate points, which otherwise produce zero-length
/// tangents and NaNs downstream.
fn dedupe(pts: &Vec<Point>) -> Vec<Point> {
    fit::dedupe(&|a: Point, b: Point| a.dist_sq(b) > 1e-20, pts)
}

/// Translate corner indices from the raw point list to the de-duplicated one.
fn remap_corners(orig: &Vec<Point>, thin: &Vec<Point>, corners: &Vec<usize>) -> Vec<usize> {
    fit::remap_corners(&|a: Point, b: Point| a.dist_sq(b) < 1e-20, orig, thin, corners)
}

/// Drop corners that turn out not to be needed.
fn prune_corners(pts: &Vec<Point>, corners: &Vec<usize>, cfg: &FitConfig) -> Vec<usize> {
    let f = Fitter { pts, cfg, tolerance: as_float(cfg.tolerance) };
    fit::prune_corners(
        &|a, b| {
            let segs = f.span(a, b);
            (segs.len(), segs.iter().map(|s| s.handles()).sum())
        },
        &|a, b| max_deviation(&pts[a..=b], &f.span(a, b)) <= f.tolerance,
        corners,
        cfg.merge_pass,
    )
}

/// Fit one contour, splitting at the supplied corner indices.
fn fit_contour(pts: &Vec<Point>, corners: &Vec<usize>, closed: bool, cfg: &FitConfig) -> Vec<Seg> {
    let f = Fitter { pts, cfg, tolerance: as_float(cfg.tolerance) };
    let n = pts.len();
    // The tangent at the seam of a smooth loop is taken cyclically, so that the
    // loop closes without a kink.
    let seam = if n >= 3 {
        (pts[1] - pts[n - 2]).normalized()
    } else if n == 2 {
        (pts[1] - pts[0]).normalized()
    } else {
        Point::ZERO
    };
    fit::fit_contour(
        &|i, j| f.line(i, j),
        &|i, j, s, t| f.cubic(i, j, s, t),
        &|i, j| f.arc(i, j),
        &|i, j, k| f.piece(i, j, k),
        &|i, j, s, t| f.worst(i, j, s, t),
        &|i| f.centre(i),
        &|i, forward| f.side(i, forward),
        (seam, -seam),
        pts,
        corners,
        closed,
        cfg,
    )
}

// ---- Fitting ------------------------------------------------------------

fn fit_cfg() -> FitConfig {
    FitConfig::default()
}

#[test]
fn a_straight_run_becomes_one_line_with_no_handles() {
    let pts: Vec<Point> = (0..40).map(|i| pt(i as f64 * 0.5, i as f64 * 0.25)).collect();
    let segs = fit_contour(&pts, &vec![0, pts.len() - 1], false, &fit_cfg());
    assert_eq!(segs.len(), 1, "{:?}", segs);
    assert_eq!(segs.iter().map(|s| s.handles()).sum::<usize>(), 0);
    assert!(matches!(segs[0], Seg::Line { .. }));
}

#[test]
fn a_quarter_circle_costs_one_segment() {
    let n = 50;
    let pts: Vec<Point> = (0..=n)
        .map(|i| {
            let t = (i as f64 / n as f64) * std::f64::consts::FRAC_PI_2;
            pt(40.0 * t.cos(), 40.0 * t.sin())
        })
        .collect();
    let segs = fit_contour(&pts, &vec![0, pts.len() - 1], false, &fit_cfg());
    assert_eq!(segs.len(), 1, "quarter circle took {} segments", segs.len());
    assert!(max_deviation(&pts, &segs) < as_float(fit_cfg().tolerance));
}

#[test]
fn a_full_circle_is_compact_and_accurate() {
    // The benchmark case for control-point economy: a circle should cost a
    // handful of segments, not one per sampled pixel.
    let n = 240;
    let mut pts: Vec<Point> = (0..n)
        .map(|i| {
            let t = i as f64 / n as f64 * std::f64::consts::TAU;
            pt(100.0 + 60.0 * t.cos(), 100.0 + 60.0 * t.sin())
        })
        .collect();
    pts.push(pts[0]);
    let segs = fit_contour(&pts, &vec![], true, &fit_cfg());
    assert!(
        segs.len() <= 8,
        "circle took {} segments: {:?}",
        segs.len(),
        segs.len()
    );
    assert!(
        max_deviation(&pts, &segs) < as_float(fit_cfg().tolerance),
        "deviation {}",
        max_deviation(&pts, &segs)
    );
}

#[test]
fn true_arcs_are_more_compact_than_cubics() {
    let n = 120;
    let pts: Vec<Point> = (0..=n)
        .map(|i| {
            let t = (i as f64 / n as f64) * std::f64::consts::PI * 1.5;
            pt(50.0 * t.cos(), 50.0 * t.sin())
        })
        .collect();
    let mut c = fit_cfg();
    c.emit_true_arcs = true;
    let with_arcs = fit_contour(&pts, &vec![0, pts.len() - 1], false, &c);
    c.emit_true_arcs = false;
    c.allow_arcs = false;
    let without = fit_contour(&pts, &vec![0, pts.len() - 1], false, &c);
    assert!(
        with_arcs.len() < without.len(),
        "arcs {} vs cubics {}",
        with_arcs.len(),
        without.len()
    );
    assert!(max_deviation(&pts, &with_arcs) < as_float(c.tolerance));
}

#[test]
fn corners_are_preserved_as_separate_runs() {
    let mut pts: Vec<Point> = (0..20).map(|i| pt(i as f64, 0.0)).collect();
    pts.extend((1..20).map(|i| pt(19.0, i as f64)));
    let corner = 19;
    let segs = fit_contour(&pts, &vec![0, corner, pts.len() - 1], false, &fit_cfg());
    assert_eq!(segs.len(), 2);
    assert_eq!(segs.iter().map(|s| s.handles()).sum::<usize>(), 0, "an L should cost two lines");
}

#[test]
fn a_wiggly_curve_stays_within_tolerance() {
    let pts: Vec<Point> = (0..200)
        .map(|i| {
            let x = i as f64 * 0.4;
            pt(x, 20.0 * (x * 0.08).sin() + 6.0 * (x * 0.31).cos())
        })
        .collect();
    let segs = fit_contour(&pts, &vec![0, pts.len() - 1], false, &fit_cfg());
    let dev = max_deviation(&pts, &segs);
    assert!(dev <= as_float(fit_cfg().tolerance), "deviation {dev}");
    assert!(segs.len() < 24, "took {} segments", segs.len());
}

#[test]
fn tighter_tolerance_costs_more_segments() {
    let pts: Vec<Point> = (0..160)
        .map(|i| {
            let x = i as f64 * 0.5;
            pt(x, 14.0 * (x * 0.09).sin())
        })
        .collect();
    let mut loose = fit_cfg();
    loose.tolerance = 1_500_000_000;
    let mut tight = fit_cfg();
    tight.tolerance = 50_000_000;
    let a = fit_contour(&pts, &vec![0, pts.len() - 1], false, &loose);
    let b = fit_contour(&pts, &vec![0, pts.len() - 1], false, &tight);
    assert!(a.len() <= b.len(), "loose {} tight {}", a.len(), b.len());
    assert!(max_deviation(&pts, &a) <= as_float(loose.tolerance));
    assert!(max_deviation(&pts, &b) <= as_float(tight.tolerance));
}

#[test]
fn pruning_drops_a_corner_that_is_not_really_there() {
    // A smooth arc with a spurious corner marked in the middle of it.
    let n = 60;
    let pts: Vec<Point> = (0..=n)
        .map(|i| {
            let t = (i as f64 / n as f64) * std::f64::consts::FRAC_PI_2;
            pt(40.0 * t.cos(), 40.0 * t.sin())
        })
        .collect();
    let corners = vec![0, n / 2, n];
    let pruned = prune_corners(&pts, &corners, &fit_cfg());
    assert_eq!(pruned, vec![0, n], "spurious corner survived: {:?}", pruned);
}

#[test]
fn pruning_keeps_a_corner_that_is_really_there() {
    let mut pts: Vec<Point> = (0..20).map(|i| pt(i as f64, 0.0)).collect();
    pts.extend((1..20).map(|i| pt(19.0, i as f64)));
    let corners = vec![0, 19, pts.len() - 1];
    let pruned = prune_corners(&pts, &corners, &fit_cfg());
    assert_eq!(pruned, corners, "a real corner was pruned away");
}

#[test]
fn pruning_a_long_contour_is_not_quadratic() {
    // Only the two runs beside a corner are refitted when it is taken out, so
    // that many corners on a long contour stay affordable.
    let n = 4000;
    let pts: Vec<Point> = (0..n)
        .map(|i| {
            let t = i as f64 * 0.05;
            // A wandering path with frequent genuine direction changes.
            pt(t, 8.0 * (t * 0.7).sin() + 3.0 * (t * 2.3).cos())
        })
        .collect();
    let corners: Vec<usize> = (0..n).step_by(10).collect();

    let start = std::time::Instant::now();
    let pruned = prune_corners(&pts, &corners, &fit_cfg());
    let elapsed = start.elapsed();

    assert!(pruned.len() <= corners.len());
    assert!(!pruned.is_empty());
    assert!(
        elapsed.as_millis() < 3000,
        "pruning {n} points with {} corners took {elapsed:?}",
        corners.len()
    );
}

#[test]
fn every_corner_ends_a_command() {
    // A zigzag of five straight runs, and the same as one loose tolerance sees it.
    let ends = [pt(0.0, 0.0), pt(8.0, 6.0), pt(16.0, 0.0), pt(24.0, 6.0), pt(32.0, 0.0)];
    let mut pts = vec![ends[0]];
    for w in ends.windows(2) {
        pts.extend((1..=8).map(|k| w[0] + (w[1] - w[0]) * (k as f64 / 8.0)));
    }
    let corners = vec![0, 8, 16, 24, 32];
    for tolerance in [300_000_000, 50_000_000_000] {
        let cfg = FitConfig { tolerance, ..fit_cfg() };
        let segs = fit_contour(&pts, &corners, false, &cfg);
        for &c in &corners[1..] {
            assert!(segs.iter().any(|s| s.end() == pts[c]), "corner {c} at {tolerance}");
        }
    }
}

#[test]
fn degenerate_inputs_do_not_panic() {
    assert!(fit_contour(&vec![], &vec![], false, &fit_cfg()).is_empty());
    assert!(fit_contour(&vec![pt(1.0, 1.0)], &vec![], false, &fit_cfg()).is_empty());
    let two = vec![pt(0.0, 0.0), pt(1.0, 1.0)];
    assert_eq!(fit_contour(&two, &vec![0, 1], false, &fit_cfg()).len(), 1);
    let same = vec![pt(2.0, 2.0); 6];
    let _ = fit_contour(&same, &vec![0, 5], false, &fit_cfg());
}

// ---- Corners ------------------------------------------------------------

fn corner_cfg() -> CornerConfig {
    CornerConfig::default()
}

/// An L-shaped path with one unambiguous 90-degree corner.
fn ell() -> Vec<Point> {
    let mut v = Vec::new();
    for i in 0..12 {
        v.push(pt(i as f64, 0.0));
    }
    for i in 1..12 {
        v.push(pt(11.0, i as f64));
    }
    v
}

/// A hard-edged 45-degree staircase: alternating unit steps right and down.
/// Every vertex turns by 90 degrees at scale 1, yet the path is straight.
fn staircase() -> Vec<Point> {
    let mut v = vec![pt(0.0, 0.0)];
    for i in 0..14 {
        v.push(pt(i as f64 + 1.0, i as f64));
        v.push(pt(i as f64 + 1.0, i as f64 + 1.0));
    }
    v
}

#[test]
fn finds_a_real_corner() {
    let pts = ell();
    let a = analyze_contour(&pts, false, &corner_cfg());
    // Endpoints plus the corner at index 11.
    assert!(
        a.corners.contains(&11),
        "expected a corner at the bend, got {:?}",
        a.corners
    );
    assert_eq!(a.corners.len(), 3, "corners: {:?}", a.corners);
}

#[test]
fn rejects_staircase_steps_as_corners() {
    // This is the discrimination that separates this engine from a
    // single-threshold smoother. Each step turns a full 90 degrees at the
    // finest scale, so any scale-blind detector marks all 28 of them.
    let pts = staircase();
    let a = analyze_contour(&pts, false, &corner_cfg());
    let interior: Vec<usize> = a
        .corners
        .iter()
        .copied()
        .filter(|&i| i != 0 && i != pts.len() - 1)
        .collect();
    assert!(
        interior.is_empty(),
        "staircase steps were mistaken for corners: {:?}",
        interior
    );
}

#[test]
fn staircase_scores_as_noisy_and_clean_line_does_not() {
    let noisy = analyze_contour(&staircase(), false, &corner_cfg());
    assert!(noisy.noise > 0.5, "staircase noise {} too low", noisy.noise);

    let straight: Vec<Point> = (0..24).map(|i| pt(i as f64 * 0.7, i as f64 * 0.3)).collect();
    let clean = analyze_contour(&straight, false, &corner_cfg());
    assert!(clean.noise < 0.02, "clean line noise {} too high", clean.noise);
}

#[test]
fn a_smooth_circle_has_no_corners() {
    let n = 64;
    let mut pts: Vec<Point> = (0..n)
        .map(|i| {
            let t = i as f64 / n as f64 * std::f64::consts::TAU;
            pt(20.0 + 15.0 * t.cos(), 20.0 + 15.0 * t.sin())
        })
        .collect();
    pts.push(pts[0]);
    let a = analyze_contour(&pts, true, &corner_cfg());
    assert!(a.corners.is_empty(), "circle got corners {:?}", a.corners);
    assert!(a.noise < 0.02, "circle noise {}", a.noise);
}

#[test]
fn a_square_loop_finds_exactly_four_corners() {
    let mut pts = Vec::new();
    let side = 14;
    for i in 0..side {
        pts.push(pt(i as f64, 0.0));
    }
    for i in 0..side {
        pts.push(pt(side as f64, i as f64));
    }
    for i in 0..side {
        pts.push(pt(side as f64 - i as f64, side as f64));
    }
    for i in 0..side {
        pts.push(pt(0.0, side as f64 - i as f64));
    }
    pts.push(pts[0]);
    let a = analyze_contour(&pts, true, &corner_cfg());
    assert_eq!(a.corners.len(), 4, "corners: {:?}", a.corners);
}

#[test]
fn taubin_preserves_circle_radius() {
    // Plain Laplacian smoothing would visibly shrink this; the whole reason
    // for Taubin is that shrinkage is a measurable accuracy loss.
    let n = 80;
    let mut pts: Vec<Point> = (0..n)
        .map(|i| {
            let t = i as f64 / n as f64 * std::f64::consts::TAU;
            pt(30.0 * t.cos(), 30.0 * t.sin())
        })
        .collect();
    pts.push(pts[0]);
    let pts = smooth_contour(&relax, pts, &vec![], true, 5);
    let mean_r: f64 = pts[..n].iter().map(|p| p.length()).sum::<f64>() / n as f64;
    assert!(
        (mean_r - 30.0).abs() < 0.2,
        "radius drifted to {mean_r} after smoothing"
    );
}

#[test]
fn smoothing_flattens_a_staircase() {
    let pts = staircase();
    let before = analyze_contour(&pts, false, &corner_cfg());
    let n = pts.len();
    let pts = smooth_contour(&relax, pts, &vec![0, n - 1], false, 5);
    let after = analyze_contour(&pts, false, &corner_cfg());
    assert!(
        after.noise < before.noise * 0.5,
        "noise {} did not drop from {}",
        after.noise,
        before.noise
    );
    // And the run should now sit close to the ideal 45-degree line.
    let max_dev = pts[2..n - 2]
        .iter()
        .map(|p| (p.x - p.y).abs() / std::f64::consts::SQRT_2)
        .fold(0.0f64, f64::max);
    assert!(max_dev < 0.45, "max deviation from the true line: {max_dev}");
}

#[test]
fn smoothing_is_planned_between_corners() {
    assert!(matches!(plan_smoothing(&vec![], 9, true), Smoothing::Loop));
    let Smoothing::Runs(runs) = plan_smoothing(&vec![0, 4, 8], 9, false) else {
        panic!("an open contour is smoothed run by run");
    };
    assert_eq!(runs, vec![vec![0, 1, 2, 3, 4], vec![4, 5, 6, 7, 8]]);
    // Eight distinct vertices; the second run crosses the seam.
    let Smoothing::Runs(runs) = plan_smoothing(&vec![2, 6], 9, true) else {
        panic!("a loop with corners is smoothed run by run");
    };
    assert_eq!(runs, vec![vec![2, 3, 4, 5, 6], vec![6, 7, 0, 1, 2]]);
    // From a lone corner all the way round to itself.
    let Smoothing::Runs(runs) = plan_smoothing(&vec![3], 6, true) else {
        panic!("a loop with a corner is smoothed run by run");
    };
    assert_eq!(runs, vec![vec![3, 4, 0, 1, 2, 3]]);
}

#[test]
fn suppression_keeps_the_strongest() {
    // Three candidates in a row: the middle one is strongest.
    assert_eq!(contour_corners(20, false, &vec![9, 10, 11], &vec![1, 5, 2], 2), vec![0, 10, 19]);
    // On a loop the distance is taken the short way round.
    assert_eq!(contour_corners(21, true, &vec![0, 19], &vec![3, 9], 2), vec![19]);
}

#[test]
fn indices_wrap_on_loops_only() {
    let ring = Indexer { n: 5, closed: true };
    assert_eq!(ring.distinct(), 4);
    assert_eq!(ring.at(0, -1), Some(3));
    assert_eq!(ring.at(3, 6), Some(1));
    let open = Indexer { n: 5, closed: false };
    assert_eq!(open.distinct(), 5);
    assert_eq!(open.at(0, -1), None);
    assert_eq!(open.at(4, 0), Some(4));
    assert_eq!(open.at(4, 1), None);
}

#[test]
fn persistence_needs_enough_scales() {
    assert!(is_persistent(3, 3, 4, 1_000_000_000));
    assert!(!is_persistent(2, 2, 4, 500_000_000), "too few scales fit");
    assert!(is_persistent(2, 2, 2, 500_000_000), "all there are");
    assert!(!is_persistent(0, 0, 0, 0));
    assert_eq!(effective_scales(&vec![8, 0, 2, 4]), vec![2, 4, 8]);
    assert_eq!(effective_scales(&vec![0]), vec![1]);
}

#[test]
fn duplicates_are_dropped_and_corners_follow() {
    let pts = vec![pt(0.0, 0.0), pt(0.0, 0.0), pt(1.0, 0.0), pt(1.0, 0.0), pt(2.0, 0.0)];
    let thin = dedupe(&pts);
    assert_eq!(thin, vec![pt(0.0, 0.0), pt(1.0, 0.0), pt(2.0, 0.0)]);
    assert_eq!(remap_corners(&pts, &thin, &vec![0, 3, 4]), vec![0, 1, 2]);
    assert_eq!(remap_corners(&thin, &thin, &vec![2, 0]), vec![2, 0], "nothing dropped");
}

/// Arcs from node to node, over the given points.
fn arc(points: Vec<Point>, ends: (u32, u32), on_border: bool) -> Arc<Point> {
    Arc {
        points,
        start_node: ends.0,
        end_node: ends.1,
        left: 0,
        right: 1,
        loop_arc: ends.0 == ends.1,
        on_border,
        corners: Vec::new(),
    }
}

#[test]
fn corners_stay_put_and_arcs_stay_welded() {
    let bent = ell();
    let steps = staircase();
    let n = steps.len();
    let line: Vec<Point> = (0..5).map(|i| pt(0.0, i as f64)).collect();
    let mut topo = Topology {
        nodes: vec![bent[0], bent[22], steps[0], steps[n - 1], line[0], line[4]],
        arcs: vec![
            arc(bent.clone(), (0, 1), false),
            arc(steps.clone(), (2, 3), false),
            arc(line.clone(), (4, 5), true),
            arc(vec![pt(7.0, 7.0), pt(8.0, 8.0)], (0, 1), false),
        ],
        region_rings: Vec::new(),
    };
    let cfg = corner_cfg();
    let threshold = as_float(cfg.threshold_deg).to_radians();
    corners::analyze(
        &turn,
        &|t: f64| t >= threshold,
        &|sum: f64, t: f64| sum + t,
        &mean_bits,
        &vanished,
        &relax,
        &|_: Option<(f64, usize)>| 5,
        0.0,
        0.0,
        &mut topo,
        &cfg,
    );
    // The corner of the first arc has not moved; the points around it have.
    assert_eq!(topo.arcs[0].corners, vec![0, 11, 22]);
    assert_eq!(topo.arcs[0].points[11], bent[11]);
    // The staircase has no corners, and is smoothed between its ends.
    assert_eq!(topo.arcs[1].corners, vec![0, n - 1]);
    assert!(topo.arcs[1].points[n / 2] != steps[n / 2]);
    // An arc along the image edge is left alone.
    assert_eq!(topo.arcs[2].corners, vec![0, 4]);
    assert_eq!(topo.arcs[2].points, line);
    // An arc of two points is all corners, and is put on its nodes.
    assert_eq!(topo.arcs[3].corners, vec![0, 1]);
    assert_eq!(topo.arcs[3].points, vec![bent[0], bent[22]]);
    for a in &topo.arcs {
        assert_eq!(a.points[0], topo.nodes[a.start_node as usize]);
        assert_eq!(a.points[a.points.len() - 1], topo.nodes[a.end_node as usize]);
    }
}
