//! Synthetic test scenes with known ground truth.
//!
//! A scene's geometry is exact, counted in billionths of a pixel: writing it out
//! as SVG gives the answer a perfect tracer would produce, and scoring that gives
//! the *ceiling* for the round-trip metric.
//!
//! Scenes are rendered by supersampling, which is how a real rasteriser behaves.
//! That matters: the point of the exercise is to invert an actual rasterisation,
//! so the test input has to be one.

use crate::color::{hex_form, Rgba8};
use crate::export::browsing::{
    divided, extended, fresh, is_command, is_plain, lemma_closed, lemma_hex_is_plain, lemma_opened,
    lemma_penned_add, lemma_penned_command, lemma_penned_letters, lemma_penned_space,
    lemma_reopened, lemma_value, lemma_yields_on, nothing, opens, penned, settled, yields, Leg,
    Markup, Pen, Stroke,
};
use crate::export::reading::{lemma_scan_fraction, lemma_times_one, number};
use crate::export::{numeral, push_num, Point};
use crate::pure::{call2, call3, pure2, pure3, value2, value3};
use crate::raster::Raster;
use crate::text::{
    decimal, dropped, last_digits, lemma_decimal_digits, lemma_last_digits_digits, push_decimal,
    push_last_digits, push_natural, push_text,
};
use vstd::prelude::*;

verus! {

/// A shape of a scene; lengths are in billionths of a pixel.
pub enum SceneShape {
    Polygon(Vec<Point>),
    Circle { centre: Point, radius: i64 },
    /// An annulus, which forces a shape with a genuine hole.
    Ring { centre: Point, outer: i64, inner: i64 },
}

/// A painted shape.
pub struct SceneItem {
    pub shape: SceneShape,
    pub color: Rgba8,
}

pub struct Scene {
    pub width: u32,
    pub height: u32,
    pub background: Rgba8,
    /// Painted in order; later items cover earlier ones.
    pub items: Vec<SceneItem>,
}

pub fn rgb(r: u8, g: u8, b: u8) -> (c: Rgba8)
    ensures
        c == (Rgba8 { r, g, b, a: 255 }),
{
    Rgba8::opaque(r, g, b)
}

// ---- Containment --------------------------------------------------------

/// No coordinate may reach this far from the origin.
pub const REACH: i64 = 0x4000_0000_0000_0000;

/// `p` is within reach of exact arithmetic.
pub open spec fn in_reach(p: Point) -> bool {
    -REACH < p.x < REACH && -REACH < p.y < REACH
}

/// The edge from `a` to `b` crosses the ray that starts at `p` and runs to the
/// right.
pub open spec fn crosses(a: Point, b: Point, p: Point) -> bool {
    (a.y > p.y) != (b.y > p.y) && if b.y > a.y {
        (p.x - a.x) * (b.y - a.y) < (p.y - a.y) * (b.x - a.x)
    } else {
        (p.x - a.x) * (b.y - a.y) > (p.y - a.y) * (b.x - a.x)
    }
}

/// The corner after corner `k`.
pub open spec fn following(pts: Seq<Point>, k: int) -> Point {
    if k + 1 < pts.len() {
        pts[k + 1]
    } else {
        pts[0]
    }
}

/// How many of the first `k` edges cross the ray from `p` to the right.
pub open spec fn crossings(pts: Seq<Point>, p: Point, k: int) -> int
    decreases k,
{
    if k <= 0 {
        0
    } else if crosses(pts[k - 1], following(pts, k - 1), p) {
        crossings(pts, p, k - 1) + 1
    } else {
        crossings(pts, p, k - 1)
    }
}

/// The squared distance between two points.
pub open spec fn distance_sq(p: Point, q: Point) -> int {
    (p.x - q.x) * (p.x - q.x) + (p.y - q.y) * (p.y - q.y)
}

/// `p` is at most `radius` away from `centre`.
pub open spec fn in_disc(p: Point, centre: Point, radius: int) -> bool {
    radius >= 0 && distance_sq(p, centre) <= radius * radius
}

fn crosses_ray(a: Point, b: Point, p: Point) -> (c: bool)
    requires
        in_reach(a),
        in_reach(b),
        in_reach(p),
    ensures
        c == crosses(a, b, p),
{
    if (a.y > p.y) == (b.y > p.y) {
        return false;
    }
    let dx: i128 = p.x as i128 - a.x as i128;
    let dy: i128 = p.y as i128 - a.y as i128;
    let ex: i128 = b.x as i128 - a.x as i128;
    let ey: i128 = b.y as i128 - a.y as i128;
    proof {
        lemma_product(dx as int, ey as int);
        lemma_product(dy as int, ex as int);
    }
    if ey > 0 {
        dx * ey < dy * ex
    } else {
        dx * ey > dy * ex
    }
}

/// Differences within reach can be multiplied.
proof fn lemma_product(a: int, b: int)
    requires
        -0x8000_0000_0000_0000 < a < 0x8000_0000_0000_0000,
        -0x8000_0000_0000_0000 < b < 0x8000_0000_0000_0000,
    ensures
        -0x4000_0000_0000_0000_0000_0000_0000_0000 < a * b
            < 0x4000_0000_0000_0000_0000_0000_0000_0000,
{
    assert(-0x4000_0000_0000_0000_0000_0000_0000_0000 < a * b
        < 0x4000_0000_0000_0000_0000_0000_0000_0000) by (nonlinear_arith)
        requires
            -0x8000_0000_0000_0000 < a < 0x8000_0000_0000_0000,
            -0x8000_0000_0000_0000 < b < 0x8000_0000_0000_0000,
    ;
}

/// Whether `p` is inside a polygon: a ray from it crosses the boundary an odd
/// number of times.
fn point_in_polygon(p: Point, pts: &Vec<Point>) -> (inside: bool)
    requires
        in_reach(p),
        forall|k: int| 0 <= k < pts@.len() ==> in_reach(#[trigger] pts@[k]),
    ensures
        inside == (crossings(pts@, p, pts@.len() as int) % 2 == 1),
{
    let mut inside: bool = false;
    let n: usize = pts.len();
    let mut i: usize = 0;
    while i < n
        invariant
            i <= n,
            n == pts@.len(),
            in_reach(p),
            forall|k: int| 0 <= k < pts@.len() ==> in_reach(#[trigger] pts@[k]),
            inside == (crossings(pts@, p, i as int) % 2 == 1),
        decreases n - i,
    {
        let a: Point = pts[i];
        let b: Point = if i < n - 1 {
            pts[i + 1]
        } else {
            pts[0]
        };
        assert(in_reach(a) && in_reach(b));
        if crosses_ray(a, b, p) {
            inside = !inside;
        }
        i = i + 1;
    }
    inside
}

fn squared_distance(p: Point, q: Point) -> (d: i128)
    requires
        in_reach(p),
        in_reach(q),
    ensures
        d == distance_sq(p, q),
{
    let dx: i128 = p.x as i128 - q.x as i128;
    let dy: i128 = p.y as i128 - q.y as i128;
    proof {
        lemma_product(dx as int, dx as int);
        lemma_product(dy as int, dy as int);
    }
    dx * dx + dy * dy
}

fn squared(r: i64) -> (q: i128)
    requires
        r >= 0,
    ensures
        q == r * r,
{
    proof {
        lemma_product(r as int, r as int);
    }
    r as i128 * r as i128
}

impl SceneShape {
    /// The shape's coordinates are within reach of exact arithmetic.
    pub open spec fn wf(&self) -> bool {
        match *self {
            SceneShape::Polygon(pts) => forall|k: int|
                0 <= k < pts@.len() ==> in_reach(#[trigger] pts@[k]),
            SceneShape::Circle { centre, radius } => in_reach(centre),
            SceneShape::Ring { centre, outer, inner } => in_reach(centre),
        }
    }

    /// `p` is part of the shape. The edge of a circle is; so are both edges of a
    /// ring.
    pub open spec fn covers(&self, p: Point) -> bool {
        match *self {
            SceneShape::Polygon(pts) => crossings(pts@, p, pts@.len() as int) % 2 == 1,
            SceneShape::Circle { centre, radius } => in_disc(p, centre, radius as int),
            SceneShape::Ring { centre, outer, inner } => in_disc(p, centre, outer as int) && (inner
                <= 0 || distance_sq(p, centre) >= inner * inner),
        }
    }

    pub fn contains(&self, p: Point) -> (b: bool)
        requires
            self.wf(),
            in_reach(p),
        ensures
            b == self.covers(p),
    {
        match self {
            SceneShape::Polygon(pts) => point_in_polygon(p, pts),
            SceneShape::Circle { centre, radius } => *radius >= 0 && squared_distance(p, *centre)
                <= squared(*radius),
            SceneShape::Ring { centre, outer, inner } => {
                let d: i128 = squared_distance(p, *centre);
                *outer >= 0 && d <= squared(*outer) && (*inner <= 0 || d >= squared(*inner))
            },
        }
    }
}

/// A ring is a disc with a hole: what is closer to the centre than the inner
/// radius belongs to the disc and not to the ring, and the rest of the disc
/// belongs to both.
pub proof fn law_ring_has_a_hole(centre: Point, outer: i64, inner: i64, p: Point)
    requires
        inner > 0,
    ensures
        ({
            let ring = SceneShape::Ring { centre, outer, inner };
            let disc = SceneShape::Circle { centre, radius: outer };
            let hole = distance_sq(p, centre) < inner * inner;
            ring.covers(p) <==> disc.covers(p) && !hole
        }),
{
}

/// An angle: `part` of `of` equal parts of a full turn, and `plus` billionths of a
/// radian more.
#[derive(Clone, Copy, Debug, PartialEq, Eq, Structural)]
pub struct Turn {
    pub part: i64,
    pub of: i64,
    pub plus: i64,
}

/// The corners of a regular polygon: they divide the circle evenly.
pub open spec fn polygon_corners<F: Fn(Point, i64, Turn) -> Point>(
    on_circle: F,
    centre: Point,
    radius: i64,
    sides: int,
    rotation: i64,
) -> Seq<Point> {
    Seq::new(
        sides as nat,
        |i: int|
            value3(
                on_circle,
                centre,
                radius,
                Turn { part: i as i64, of: sides as i64, plus: rotation },
            ),
    )
}

/// A regular polygon, rotated by billionths of a radian. `on_circle` gives the
/// point at an angle on the circle with a centre and a radius.
pub fn regular_polygon<F: Fn(Point, i64, Turn) -> Point>(
    on_circle: &F,
    centre: Point,
    radius: i64,
    sides: u32,
    rotation: i64,
) -> (s: SceneShape)
    requires
        pure3(*on_circle),
    ensures
        s matches SceneShape::Polygon(pts) && pts@ == polygon_corners(
            *on_circle,
            centre,
            radius,
            sides as int,
            rotation,
        ),
{
    let mut pts: Vec<Point> = Vec::new();
    let mut i: u32 = 0;
    while i < sides
        invariant
            pure3(*on_circle),
            i <= sides,
            pts@.len() == i,
            forall|j: int|
                0 <= j < i ==> #[trigger] pts@[j] == polygon_corners(
                    *on_circle,
                    centre,
                    radius,
                    sides as int,
                    rotation,
                )[j],
        decreases sides - i,
    {
        let turn = Turn { part: i as i64, of: sides as i64, plus: rotation };
        pts.push(call3(on_circle, centre, radius, turn));
        i = i + 1;
    }
    assert(pts@ =~= polygon_corners(*on_circle, centre, radius, sides as int, rotation));
    SceneShape::Polygon(pts)
}

/// The corners of a star: on the outer and on the inner circle in turn, the first
/// one straight up.
pub open spec fn star_corners<F: Fn(Point, i64, Turn) -> Point>(
    on_circle: F,
    centre: Point,
    outer: i64,
    inner: i64,
    points: int,
) -> Seq<Point> {
    Seq::new(
        (2 * points) as nat,
        |i: int|
            value3(
                on_circle,
                centre,
                if i % 2 == 0 {
                    outer
                } else {
                    inner
                },
                // A quarter turn back from part `i` of `2 * points`.
                Turn { part: (2 * i - points) as i64, of: (4 * points) as i64, plus: 0 },
            ),
    )
}

/// A star of `points` points.
pub fn star<F: Fn(Point, i64, Turn) -> Point>(
    on_circle: &F,
    centre: Point,
    outer: i64,
    inner: i64,
    points: u32,
) -> (s: SceneShape)
    requires
        pure3(*on_circle),
    ensures
        s matches SceneShape::Polygon(pts) && pts@ == star_corners(
            *on_circle,
            centre,
            outer,
            inner,
            points as int,
        ),
{
    let n: i64 = points as i64;
    let mut pts: Vec<Point> = Vec::new();
    let mut i: i64 = 0;
    while i < 2 * n
        invariant
            pure3(*on_circle),
            n == points,
            0 <= i <= 2 * n,
            pts@.len() == i,
            forall|j: int|
                0 <= j < i ==> #[trigger] pts@[j] == star_corners(
                    *on_circle,
                    centre,
                    outer,
                    inner,
                    points as int,
                )[j],
        decreases 2 * n - i,
    {
        let r: i64 = if i % 2 == 0 {
            outer
        } else {
            inner
        };
        let turn = Turn { part: 2 * i - n, of: 4 * n, plus: 0 };
        pts.push(call3(on_circle, centre, r, turn));
        i = i + 1;
    }
    assert(pts@ =~= star_corners(*on_circle, centre, outer, inner, points as int));
    SceneShape::Polygon(pts)
}

// ---- Rendering ----------------------------------------------------------

/// Where sample `s` of `ss` lies along pixel `x`: the samples divide the pixel
/// evenly, and each lies in the middle of its share.
pub open spec fn sample_at(x: int, s: int, ss: int) -> int {
    x * 1_000_000_000 + (2 * s + 1) * 1_000_000_000 / (2 * ss)
}

pub open spec fn sample_point(x: int, y: int, sx: int, sy: int, ss: int) -> Point {
    Point { x: sample_at(x, sx, ss) as i64, y: sample_at(y, sy, ss) as i64 }
}

/// The colour at `p` once the first `k` items are painted over `ground`, one
/// after the other.
pub open spec fn painted<C, FO: Fn(C, Rgba8) -> C>(
    over: FO,
    ground: C,
    items: Seq<SceneItem>,
    p: Point,
    k: int,
) -> C
    decreases k,
{
    if k <= 0 {
        ground
    } else {
        let below = painted(over, ground, items, p, k - 1);
        if items[k - 1].shape.covers(p) {
            value2(over, below, items[k - 1].color)
        } else {
            below
        }
    }
}

/// The sum of the first `k` samples of a pixel, row by row.
pub open spec fn sample_sum<C, FO: Fn(C, Rgba8) -> C, FA: Fn(C, C) -> C>(
    over: FO,
    add: FA,
    ground: C,
    zero: C,
    items: Seq<SceneItem>,
    x: int,
    y: int,
    ss: int,
    k: int,
) -> C
    decreases k,
{
    if k <= 0 {
        zero
    } else {
        value2(
            add,
            sample_sum(over, add, ground, zero, items, x, y, ss, k - 1),
            painted(
                over,
                ground,
                items,
                sample_point(x, y, (k - 1) % ss, (k - 1) / ss, ss),
                items.len() as int,
            ),
        )
    }
}

fn sample_place(x: u32, s: u32, ss: u32) -> (v: i64)
    requires
        s < ss <= 65_535,
    ensures
        v == sample_at(x as int, s as int, ss as int),
        0 <= v < REACH,
{
    let part: u64 = (2 * s as u64 + 1) * 1_000_000_000 / (2 * ss as u64);
    assert(part < 1_000_000_000) by (nonlinear_arith)
        requires
            part == (2 * s + 1) * 1_000_000_000 / (2 * ss as int),
            s < ss,
    ;
    x as i64 * 1_000_000_000 + part as i64
}

impl Scene {
    /// Every shape's coordinates are within reach of exact arithmetic.
    pub open spec fn wf(&self) -> bool {
        forall|k: int| 0 <= k < self.items@.len() ==> (#[trigger] self.items@[k]).shape.wf()
    }

    fn paint<C: Copy, FO: Fn(C, Rgba8) -> C>(&self, over: &FO, ground: C, p: Point) -> (c: C)
        requires
            pure2(*over),
            self.wf(),
            in_reach(p),
        ensures
            c == painted(*over, ground, self.items@, p, self.items@.len() as int),
    {
        let mut c: C = ground;
        let mut k: usize = 0;
        while k < self.items.len()
            invariant
                pure2(*over),
                self.wf(),
                in_reach(p),
                k <= self.items@.len(),
                c == painted(*over, ground, self.items@, p, k as int),
            decreases self.items@.len() - k,
        {
            let item: &SceneItem = &self.items[k];
            assert(self.items@[k as int].shape.wf());
            if item.shape.contains(p) {
                c = call2(over, c, item.color);
            }
            k = k + 1;
        }
        c
    }

    fn gather<C: Copy, FO: Fn(C, Rgba8) -> C, FA: Fn(C, C) -> C>(
        &self,
        over: &FO,
        add: &FA,
        ground: C,
        zero: C,
        x: u32,
        y: u32,
        ss: u32,
    ) -> (sum: C)
        requires
            pure2(*over),
            pure2(*add),
            self.wf(),
            1 <= ss <= 65_535,
        ensures
            sum == sample_sum(
                *over,
                *add,
                ground,
                zero,
                self.items@,
                x as int,
                y as int,
                ss as int,
                ss * ss,
            ),
    {
        let mut sum: C = zero;
        let mut sy: u32 = 0;
        assert(0 * ss == 0);
        while sy < ss
            invariant
                pure2(*over),
                pure2(*add),
                self.wf(),
                1 <= ss <= 65_535,
                sy <= ss,
                sum == sample_sum(
                    *over,
                    *add,
                    ground,
                    zero,
                    self.items@,
                    x as int,
                    y as int,
                    ss as int,
                    sy * ss,
                ),
            decreases ss - sy,
        {
            let py: i64 = sample_place(y, sy, ss);
            let mut sx: u32 = 0;
            while sx < ss
                invariant
                    pure2(*over),
                    pure2(*add),
                    self.wf(),
                    1 <= ss <= 65_535,
                    sy < ss,
                    sx <= ss,
                    py == sample_at(y as int, sy as int, ss as int),
                    0 <= py < REACH,
                    sum == sample_sum(
                        *over,
                        *add,
                        ground,
                        zero,
                        self.items@,
                        x as int,
                        y as int,
                        ss as int,
                        sy * ss + sx,
                    ),
                decreases ss - sx,
            {
                let p = Point { x: sample_place(x, sx, ss), y: py };
                let c: C = self.paint(over, ground, p);
                sum = call2(add, sum, c);
                proof {
                    let k = sy * ss + sx;
                    assert(k >= 0) by (nonlinear_arith)
                        requires
                            k == sy * ss + sx,
                            sy >= 0,
                            ss >= 0,
                            sx >= 0,
                    ;
                    vstd::arithmetic::div_mod::lemma_fundamental_div_mod_converse(
                        k,
                        ss as int,
                        sy as int,
                        sx as int,
                    );
                    assert(p == sample_point(x as int, y as int, k % (ss as int), k / (ss as int), ss as int));
                }
                sx = sx + 1;
            }
            assert(sy * ss + ss == (sy + 1) * ss) by (nonlinear_arith);
            sy = sy + 1;
        }
        sum
    }

    /// Render with `ss` x `ss` supersampling, which is what produces the
    /// anti-aliased coverage the tracer is meant to invert. `ground` is the
    /// background's colour, `over` paints one colour over another, `add` sums
    /// the samples of a pixel from `zero` on, and `mean` divides the sum by
    /// their number.
    pub fn render<
        C: Copy,
        FO: Fn(C, Rgba8) -> C,
        FA: Fn(C, C) -> C,
        FM: Fn(C, u32) -> C,
    >(&self, over: &FO, add: &FA, mean: &FM, ground: C, zero: C, ss: u32) -> (out: Raster<C>)
        requires
            pure2(*over),
            pure2(*add),
            pure2(*mean),
            self.wf(),
            ss <= 65_535,
        ensures
            out.wf(),
            out.width == self.width,
            out.height == self.height,
            ({
                let n = if ss == 0 {
                    1
                } else {
                    ss as int
                };
                forall|x: int, y: int|
                    0 <= x < self.width && 0 <= y < self.height ==> #[trigger] out.pixel(x, y)
                        == value2(
                        *mean,
                        sample_sum(*over, *add, ground, zero, self.items@, x, y, n, n * n),
                        (n * n) as u32,
                    )
            }),
    {
        let ss: u32 = if ss < 1 {
            1
        } else {
            ss
        };
        let w: u32 = self.width;
        let h: u32 = self.height;
        let ghost n = ss as int;
        assert(0 < n * n <= 0xffff_ffff) by (nonlinear_arith)
            requires
                1 <= n <= 65_535,
        ;
        let count: u32 = ss * ss;
        let ghost at = |x: int, y: int|
            value2(
                *mean,
                sample_sum(*over, *add, ground, zero, self.items@, x, y, n, n * n),
                count,
            );
        let mut data: Vec<C> = Vec::new();
        let mut y: u32 = 0;
        assert(0 * w == 0);
        while y < h
            invariant
                pure2(*over),
                pure2(*add),
                pure2(*mean),
                self.wf(),
                1 <= ss <= 65_535,
                n == ss,
                count == n * n,
                at == (|x: int, y: int|
                    value2(
                        *mean,
                        sample_sum(*over, *add, ground, zero, self.items@, x, y, n, n * n),
                        count,
                    )),
                y <= h,
                data@.len() == y * w,
                forall|k: int|
                    0 <= k < data@.len() ==> #[trigger] data@[k] == at(
                        k % (w as int),
                        k / (w as int),
                    ),
            decreases h - y,
        {
            let mut x: u32 = 0;
            while x < w
                invariant
                    pure2(*over),
                    pure2(*add),
                    pure2(*mean),
                    self.wf(),
                    1 <= ss <= 65_535,
                    n == ss,
                    count == n * n,
                    at == (|x: int, y: int|
                        value2(
                            *mean,
                            sample_sum(*over, *add, ground, zero, self.items@, x, y, n, n * n),
                            count,
                        )),
                    x <= w,
                    data@.len() == y * w + x,
                    forall|k: int|
                        0 <= k < data@.len() ==> #[trigger] data@[k] == at(
                            k % (w as int),
                            k / (w as int),
                        ),
                decreases w - x,
            {
                let sum: C = self.gather(over, add, ground, zero, x, y, ss);
                data.push(call2(mean, sum, count));
                proof {
                    vstd::arithmetic::div_mod::lemma_fundamental_div_mod_converse(
                        y * w + x,
                        w as int,
                        y as int,
                        x as int,
                    );
                    assert(data@[y * w + x] == at(x as int, y as int));
                }
                x = x + 1;
            }
            assert(y * w + w == (y + 1) * w) by (nonlinear_arith);
            y = y + 1;
        }
        let out = Raster { width: w, height: h, data };
        proof {
            assert(h * w == w * h) by (nonlinear_arith);
            assert forall|x: int, y: int| 0 <= x < w && 0 <= y < h implies #[trigger] out.pixel(x, y)
                == at(x, y) by {
                crate::raster::lemma_cell(x, y, w as int, h as int);
                vstd::arithmetic::div_mod::lemma_fundamental_div_mod_converse(
                    y * w + x,
                    w as int,
                    y,
                    x,
                );
            }
        }
        out
    }

    /// Render with no anti-aliasing at all: every pixel takes the colour at its
    /// centre. Models pixel art and screenshots. The callbacks are those of
    /// [`Scene::render`].
    pub fn render_hard<
        C: Copy,
        FO: Fn(C, Rgba8) -> C,
        FA: Fn(C, C) -> C,
        FM: Fn(C, u32) -> C,
    >(&self, over: &FO, add: &FA, mean: &FM, ground: C, zero: C) -> (out: Raster<C>)
        requires
            pure2(*over),
            pure2(*add),
            pure2(*mean),
            self.wf(),
        ensures
            out.wf(),
            out.width == self.width,
            out.height == self.height,
            forall|x: int, y: int|
                0 <= x < self.width && 0 <= y < self.height ==> #[trigger] out.pixel(x, y)
                    == value2(
                    *mean,
                    value2(
                        *add,
                        zero,
                        painted(
                            *over,
                            ground,
                            self.items@,
                            pixel_centre(x, y),
                            self.items@.len() as int,
                        ),
                    ),
                    1,
                ),
    {
        let out: Raster<C> = self.render(over, add, mean, ground, zero, 1);
        proof {
            reveal_with_fuel(sample_sum, 2);
            assert forall|x: int| #[trigger] sample_at(x, 0, 1) == x * 1_000_000_000
                + 500_000_000 by {
                lemma_single_sample(x);
            }
        }
        out
    }
}

/// A single sample lies in the middle of its pixel.
proof fn lemma_single_sample(x: int)
    ensures
        sample_at(x, 0, 1) == x * 1_000_000_000 + 500_000_000,
{
    let a = (2 * 0 + 1) * 1_000_000_000int;
    let b = 2 * 1int;
    assert(a / b == 500_000_000) by (nonlinear_arith)
        requires
            a == 1_000_000_000,
            b == 2,
    ;
}

pub open spec fn pixel_centre(x: int, y: int) -> Point {
    Point {
        x: (x * 1_000_000_000 + 500_000_000) as i64,
        y: (y * 1_000_000_000 + 500_000_000) as i64,
    }
}

// ---- The ideal answer ---------------------------------------------------

/// A number of billionths, rounded to four decimals, all of them written out.
pub open spec fn four_places(v: int) -> Seq<char> {
    let m = ((if v < 0 {
        -v
    } else {
        v
    } + 50_000) / 100_000) as nat;
    (if v < 0 {
        seq!['-']
    } else {
        seq![]
    }) + decimal(dropped(m, 4)) + seq!['.'] + last_digits(m, 4)
}

fn push_four_places(s: &mut String, v: i64)
    ensures
        final(s)@ == old(s)@ + four_places(v as int),
{
    let ghost s0 = s@;
    let m: u128 = if v < 0 {
        s.push('-');
        (-(v as i128)) as u128
    } else {
        v as u128
    };
    let m: u128 = (m + 50_000) / 100_000;
    reveal_with_fuel(dropped, 5);
    push_natural(s, m / 10000);
    s.push('.');
    push_last_digits(s, m, 4);
    assert(dropped(m as nat, 4) == m as nat / 10000);
    assert(s@ =~= s0 + four_places(v as int));
}

/// One corner of a polygon; the first is moved to, the others drawn to.
pub open spec fn corner_text(q: Point, first: bool) -> Seq<char> {
    (if first {
        "M"@
    } else {
        "L"@
    }) + four_places(q.x as int) + " "@ + four_places(q.y as int)
}

pub open spec fn corners_text(pts: Seq<Point>) -> Seq<char>
    decreases pts.len(),
{
    if pts.len() == 0 {
        seq![]
    } else {
        corners_text(pts.drop_last()) + corner_text(pts.last(), pts.len() == 1)
    }
}

/// A circle as two half-turns that begin at its left.
pub open spec fn circle_path(centre: Point, radius: int) -> Seq<char> {
    let r = numeral(radius, 9);
    let d = numeral(2 * radius, 9);
    "M"@ + numeral(centre.x as int, 9) + " "@ + numeral(centre.y as int, 9) + "m-"@ + r + ",0a"@ + r
        + ","@ + r + " 0 1,0 "@ + d + ",0a"@ + r + ","@ + r + " 0 1,0 -"@ + d + ",0"@
}

/// One shape. A ring is two concentric circles under the even-odd rule, which
/// punches the hole without relying on subpath winding direction.
pub open spec fn item_text(item: SceneItem) -> Seq<char> {
    let fill = hex_form(item.color);
    match item.shape {
        SceneShape::Polygon(pts) => "<path d=\""@ + corners_text(pts@) + "Z\" fill=\""@ + fill
            + "\"/>\n"@,
        SceneShape::Circle { centre, radius } => "<circle cx=\""@ + four_places(centre.x as int)
            + "\" cy=\""@ + four_places(centre.y as int) + "\" r=\""@ + four_places(radius as int)
            + "\" fill=\""@ + fill + "\"/>\n"@,
        SceneShape::Ring { centre, outer, inner } => "<path fill-rule=\"evenodd\" fill=\""@ + fill
            + "\" d=\""@ + circle_path(centre, outer as int) + circle_path(centre, inner as int)
            + "\"/>\n"@,
    }
}

pub open spec fn items_text(items: Seq<SceneItem>) -> Seq<char>
    decreases items.len(),
{
    if items.len() == 0 {
        seq![]
    } else {
        items_text(items.drop_last()) + item_text(items.last())
    }
}

pub open spec fn scene_head(s: Scene) -> Seq<char> {
    let w = decimal(s.width as nat);
    let h = decimal(s.height as nat);
    "<?xml version=\"1.0\" encoding=\"UTF-8\"?>\n<svg xmlns=\"http://www.w3.org/2000/svg\" width=\""@
        + w + "\" height=\""@ + h + "\" viewBox=\"0 0 "@ + w + " "@ + h
        + "\" shape-rendering=\"geometricPrecision\">\n"@
}

/// The backdrop, where there is one to see.
pub open spec fn scene_backdrop(s: Scene) -> Seq<char> {
    if s.background.a > 0 {
        "<rect width=\""@ + decimal(s.width as nat) + "\" height=\""@ + decimal(s.height as nat)
            + "\" fill=\""@ + hex_form(s.background) + "\"/>\n"@
    } else {
        seq![]
    }
}

pub open spec fn ideal_svg(s: Scene) -> Seq<char> {
    scene_head(s) + scene_backdrop(s) + items_text(s.items@) + "</svg>\n"@
}

fn push_corners(s: &mut String, pts: &Vec<Point>)
    ensures
        final(s)@ == old(s)@ + corners_text(pts@),
{
    let ghost s0 = s@;
    let mut i: usize = 0;
    assert(s@ =~= s0 + corners_text(pts@.take(0)));
    while i < pts.len()
        invariant
            i <= pts@.len(),
            s@ == s0 + corners_text(pts@.take(i as int)),
        decreases pts@.len() - i,
    {
        let ghost before = s@;
        let q: Point = pts[i];
        push_text(
            s,
            if i == 0 {
                "M"
            } else {
                "L"
            },
        );
        push_four_places(s, q.x);
        push_text(s, " ");
        push_four_places(s, q.y);
        proof {
            assert(s@ =~= before + corner_text(q, i == 0));
            let next = pts@.take(i + 1);
            assert(next.drop_last() =~= pts@.take(i as int));
            assert(s@ =~= s0 + corners_text(next));
        }
        i = i + 1;
    }
    assert(pts@.take(i as int) =~= pts@);
}

fn push_circle(s: &mut String, centre: Point, radius: i64)
    ensures
        final(s)@ == old(s)@ + circle_path(centre, radius as int),
{
    let ghost s0 = s@;
    let r: i128 = radius as i128;
    push_text(s, "M");
    push_num(s, centre.x as i128, 9);
    push_text(s, " ");
    push_num(s, centre.y as i128, 9);
    push_text(s, "m-");
    push_num(s, r, 9);
    push_text(s, ",0a");
    push_num(s, r, 9);
    push_text(s, ",");
    push_num(s, r, 9);
    push_text(s, " 0 1,0 ");
    push_num(s, 2 * r, 9);
    push_text(s, ",0a");
    push_num(s, r, 9);
    push_text(s, ",");
    push_num(s, r, 9);
    push_text(s, " 0 1,0 -");
    push_num(s, 2 * r, 9);
    push_text(s, ",0");
    assert(s@ =~= s0 + circle_path(centre, radius as int));
}

fn push_item(s: &mut String, item: &SceneItem)
    ensures
        final(s)@ == old(s)@ + item_text(*item),
{
    let ghost s0 = s@;
    let fill: String = item.color.to_hex();
    match &item.shape {
        SceneShape::Polygon(pts) => {
            push_text(s, "<path d=\"");
            push_corners(s, pts);
            push_text(s, "Z\" fill=\"");
            push_text(s, fill.as_str());
            push_text(s, "\"/>\n");
        },
        SceneShape::Circle { centre, radius } => {
            push_text(s, "<circle cx=\"");
            push_four_places(s, centre.x);
            push_text(s, "\" cy=\"");
            push_four_places(s, centre.y);
            push_text(s, "\" r=\"");
            push_four_places(s, *radius);
            push_text(s, "\" fill=\"");
            push_text(s, fill.as_str());
            push_text(s, "\"/>\n");
        },
        SceneShape::Ring { centre, outer, inner } => {
            push_text(s, "<path fill-rule=\"evenodd\" fill=\"");
            push_text(s, fill.as_str());
            push_text(s, "\" d=\"");
            push_circle(s, *centre, *outer);
            push_circle(s, *centre, *inner);
            push_text(s, "\"/>\n");
        },
    }
    assert(s@ =~= s0 + item_text(*item));
}

impl Scene {
    /// The scene's exact geometry as SVG.
    ///
    /// This is the answer a perfect tracer would produce, and scoring it gives
    /// the *ceiling* for the round-trip metric: whatever it falls short of
    /// 100%, the shortfall is the difference between two rasterisers rather
    /// than anything a tracer could fix. Without that calibration it is
    /// impossible to tell a tracing defect from an artefact of the measurement.
    pub fn to_ideal_svg(&self) -> (s: String)
        ensures
            s@ == ideal_svg(*self),
    {
        let mut s: String = String::new();
        push_text(
            &mut s,
            "<?xml version=\"1.0\" encoding=\"UTF-8\"?>\n<svg xmlns=\"http://www.w3.org/2000/svg\" width=\"",
        );
        push_decimal(&mut s, self.width as u64);
        push_text(&mut s, "\" height=\"");
        push_decimal(&mut s, self.height as u64);
        push_text(&mut s, "\" viewBox=\"0 0 ");
        push_decimal(&mut s, self.width as u64);
        push_text(&mut s, " ");
        push_decimal(&mut s, self.height as u64);
        push_text(&mut s, "\" shape-rendering=\"geometricPrecision\">\n");
        assert(s@ =~= scene_head(*self));
        if self.background.a > 0 {
            push_text(&mut s, "<rect width=\"");
            push_decimal(&mut s, self.width as u64);
            push_text(&mut s, "\" height=\"");
            push_decimal(&mut s, self.height as u64);
            push_text(&mut s, "\" fill=\"");
            let fill: String = self.background.to_hex();
            push_text(&mut s, fill.as_str());
            push_text(&mut s, "\"/>\n");
        }
        let ghost head = scene_head(*self) + scene_backdrop(*self);
        assert(s@ =~= head);
        let mut i: usize = 0;
        assert(s@ =~= head + items_text(self.items@.take(0)));
        while i < self.items.len()
            invariant
                i <= self.items@.len(),
                s@ == head + items_text(self.items@.take(i as int)),
            decreases self.items@.len() - i,
        {
            push_item(&mut s, &self.items[i]);
            proof {
                let next = self.items@.take(i + 1);
                assert(next.drop_last() =~= self.items@.take(i as int));
                assert(s@ =~= head + items_text(next));
            }
            i = i + 1;
        }
        assert(self.items@.take(i as int) =~= self.items@);
        push_text(&mut s, "</svg>\n");
        s
    }
}

// ---- What is covered ----------------------------------------------------

/// Whether an edge crosses the ray from a point to the right does not depend on the
/// direction of the edge. An edge that lies to the left of the point, above it or below it
/// does not cross, and one that lies to the right of it and passes its height does.
pub proof fn law_rays_run_to_the_right(a: Point, b: Point, p: Point)
    ensures
        crosses(a, b, p) == crosses(b, a, p),
        a.x < p.x && b.x < p.x ==> !crosses(a, b, p),
        a.y > p.y && b.y > p.y ==> !crosses(a, b, p),
        a.y <= p.y && b.y <= p.y ==> !crosses(a, b, p),
        a.x > p.x && b.x > p.x && a.y > p.y && b.y <= p.y ==> crosses(a, b, p),
{
    let u = p.x - a.x;
    let v = b.y - a.y;
    let s = p.y - a.y;
    let t = b.x - a.x;
    let u2 = p.x - b.x;
    let s2 = p.y - b.y;
    assert(u2 == u - t && s2 == s - v);
    assert((u - t) * (-v) == -(u * v) + t * v) by (nonlinear_arith);
    assert((s - v) * (-t) == -(s * t) + v * t) by (nonlinear_arith);
    assert(t * v == v * t) by (nonlinear_arith);
    assert(u2 * (a.y - b.y) == (u - t) * (-v)) by (nonlinear_arith)
        requires
            u2 == u - t,
            a.y - b.y == -v,
    ;
    assert(s2 * (a.x - b.x) == (s - v) * (-t)) by (nonlinear_arith)
        requires
            s2 == s - v,
            a.x - b.x == -t,
    ;
    if a.x < p.x && b.x < p.x {
        if b.y > a.y {
            assert(0 <= s < v && u > 0 && u > t ==> u * v >= s * t) by (nonlinear_arith);
        } else {
            assert(v <= s < 0 && u > 0 && u > t ==> u * v <= s * t) by (nonlinear_arith);
        }
    }
    if a.x > p.x && b.x > p.x && a.y > p.y && b.y <= p.y {
        assert(v <= s < 0 && u < 0 && u < t ==> u * v > s * t) by (nonlinear_arith);
    }
}

/// How many edges cross the ray, edge by edge: the last edge goes back to the first corner.
pub proof fn law_every_edge_is_counted_once(pts: Seq<Point>, p: Point)
    ensures
        crossings(pts, p, pts.len() as int) == Seq::new(pts.len(), |k: int| k).filter(
            |k: int| crosses(pts[k], pts[(k + 1) % (pts.len() as int)], p),
        ).len(),
{
    lemma_edges(pts, p, pts.len() as int);
}

proof fn lemma_edges(pts: Seq<Point>, p: Point, n: int)
    requires
        0 <= n <= pts.len(),
    ensures
        crossings(pts, p, n) == Seq::new(n as nat, |k: int| k).filter(
            |k: int| crosses(pts[k], pts[(k + 1) % (pts.len() as int)], p),
        ).len(),
    decreases n,
{
    reveal(Seq::filter);
    if n > 0 {
        lemma_edges(pts, p, n - 1);
        let all = Seq::new(n as nat, |k: int| k);
        assert(all.drop_last() =~= Seq::new((n - 1) as nat, |k: int| k));
        assert(all.last() == n - 1);
        let m = pts.len() as int;
        if n < m {
            vstd::arithmetic::div_mod::lemma_small_mod(n as nat, m as nat);
        } else {
            vstd::arithmetic::div_mod::lemma_mod_self_0(m);
        }
        assert(following(pts, n - 1) == pts[n % m]);
    }
}

/// The colour of a point is the ground with those items painted over it that cover the
/// point, from the first to the last.
pub proof fn law_later_items_are_painted_over<C, FO: Fn(C, Rgba8) -> C>(
    over: FO,
    ground: C,
    items: Seq<SceneItem>,
    p: Point,
)
    ensures
        painted(over, ground, items, p, items.len() as int) == items.filter(
            |i: SceneItem| i.shape.covers(p),
        ).fold_left(ground, |c: C, i: SceneItem| value2(over, c, i.color)),
{
    lemma_painted(over, ground, items, p, items.len() as int);
    assert(items.take(items.len() as int) =~= items);
}

proof fn lemma_painted<C, FO: Fn(C, Rgba8) -> C>(
    over: FO,
    ground: C,
    items: Seq<SceneItem>,
    p: Point,
    k: int,
)
    requires
        0 <= k <= items.len(),
    ensures
        painted(over, ground, items, p, k) == items.take(k).filter(
            |i: SceneItem| i.shape.covers(p),
        ).fold_left(ground, |c: C, i: SceneItem| value2(over, c, i.color)),
    decreases k,
{
    reveal(Seq::filter);
    if k > 0 {
        lemma_painted(over, ground, items, p, k - 1);
        assert(items.take(k).drop_last() =~= items.take(k - 1));
        assert(items.take(k).last() == items[k - 1]);
        let before = items.take(k - 1).filter(|i: SceneItem| i.shape.covers(p));
        assert(before.push(items[k - 1]).drop_last() =~= before);
    }
}

/// The samples of a pixel are taken row by row; sample `sx` of row `sy` follows those
/// before it.
pub proof fn law_samples_are_taken_by_rows<C, FO: Fn(C, Rgba8) -> C, FA: Fn(C, C) -> C>(
    over: FO,
    add: FA,
    ground: C,
    zero: C,
    items: Seq<SceneItem>,
    x: int,
    y: int,
    ss: int,
    sx: int,
    sy: int,
)
    requires
        0 <= sx < ss,
        0 <= sy < ss,
    ensures
        sample_sum(over, add, ground, zero, items, x, y, ss, 0) == zero,
        sample_sum(over, add, ground, zero, items, x, y, ss, sy * ss + sx + 1) == value2(
            add,
            sample_sum(over, add, ground, zero, items, x, y, ss, sy * ss + sx),
            painted(
                over,
                ground,
                items,
                Point { x: sample_at(x, sx, ss) as i64, y: sample_at(y, sy, ss) as i64 },
                items.len() as int,
            ),
        ),
{
    let k = sy * ss + sx;
    assert(k >= 0) by (nonlinear_arith)
        requires
            k == sy * ss + sx,
            sy >= 0,
            ss >= 0,
            sx >= 0,
    ;
    vstd::arithmetic::div_mod::lemma_fundamental_div_mod_converse(k, ss, sy, sx);
}

/// The samples lie inside their pixel, in order; one alone lies in the middle, and each is
/// no further than a billionth from the middle of its share.
pub proof fn law_samples_divide_the_pixel(x: int, s: int, ss: int)
    requires
        0 <= s < ss,
        ss <= 1_000_000,
    ensures
        sample_at(x, 0, 1) == x * 1_000_000_000 + 500_000_000,
        x * 1_000_000_000 < sample_at(x, s, ss) < (x + 1) * 1_000_000_000,
        0 <= (2 * s + 1) * 1_000_000_000 - 2 * ss * (sample_at(x, s, ss) - x * 1_000_000_000) < 2
            * ss,
{
    lemma_single_sample(x);
    let a = (2 * s + 1) * 1_000_000_000;
    let q = a / (2 * ss);
    vstd::arithmetic::div_mod::lemma_fundamental_div_mod(a, 2 * ss);
    vstd::arithmetic::div_mod::lemma_mod_bound(a, 2 * ss);
    assert(a == 2 * ss * q + a % (2 * ss));
    assert(q > 0) by (nonlinear_arith)
        requires
            a == 2 * ss * q + a % (2 * ss),
            a % (2 * ss) < 2 * ss,
            a >= 1_000_000_000,
            0 < ss <= 1_000_000,
    ;
    assert(q < 1_000_000_000) by (nonlinear_arith)
        requires
            a == 2 * ss * q + a % (2 * ss),
            a % (2 * ss) >= 0,
            a == (2 * s + 1) * 1_000_000_000,
            0 <= s < ss,
    ;
}

// ---- Reading the ideal drawing back -------------------------------------

/// A number of billionths in steps of four decimals, to the nearest.
pub open spec fn to_four_places(v: int) -> int {
    if v < 0 {
        -((-v + 50_000) / 100_000)
    } else {
        (v + 50_000) / 100_000
    }
}

/// A number that is written with four decimals is read as the nearest one, and it is one
/// word of a path.
pub proof fn law_four_places_read_back(v: int)
    ensures
        number(four_places(v), 4) == to_four_places(v),
        -50_000 <= v - 100_000 * number(four_places(v), 4) <= 50_000,
        four_places(v).len() > 0,
        forall|i: int|
            0 <= i < four_places(v).len() ==> !is_command(#[trigger] four_places(v)[i])
                && four_places(v)[i] != ' ' && four_places(v)[i] != '"',
{
    let m = ((if v < 0 {
        -v
    } else {
        v
    } + 50_000) / 100_000) as nat;
    let body = decimal(dropped(m, 4)) + seq!['.'] + last_digits(m, 4);
    let text = four_places(v);
    lemma_scan_fraction(m, 4);
    lemma_times_one(m as int);
    lemma_decimal_digits(dropped(m, 4));
    lemma_last_digits_digits(m, 4);
    let whole = decimal(dropped(m, 4));
    let fraction = last_digits(m, 4);
    assert forall|i: int| 0 <= i < body.len() implies (#[trigger] body[i] == '.' || '0' <= body[i]
        <= '9') by {
        if i < whole.len() {
            assert(body[i] == whole[i]);
        } else if i > whole.len() {
            assert(body[i] == fraction[i - whole.len() - 1]);
        }
    }
    if v < 0 {
        assert(text =~= seq!['-'] + body);
        assert(text.drop_first() =~= body);
        assert forall|i: int| 0 <= i < text.len() implies !is_command(#[trigger] text[i]) && text[i]
            != ' ' && text[i] != '"' by {
            if i > 0 {
                assert(text[i] == body[i - 1]);
            }
        }
    } else {
        assert(text =~= body);
        assert(body[0] == whole[0]);
    }
}

/// A corner of a polygon, in steps of four decimals.
pub open spec fn corner_read(q: Point) -> (int, int) {
    (to_four_places(q.x as int), to_four_places(q.y as int))
}

proof fn lemma_corner(v: Pen, q: Point, first: bool)
    requires
        settled(v, 4).sound,
        !first ==> settled(v, 4).strokes.len() > 0 && !settled(v, 4).strokes.last().closed,
    ensures
        ({
            let w = settled(penned(v, corner_text(q, first), 4), 4);
            let before = settled(v, 4).strokes;
            let (x, y) = corner_read(q);
            &&& w.sound
            &&& first ==> w.strokes == before.push(
                Stroke { start: (x, y), legs: seq![], closed: false },
            )
            &&& !first ==> w.strokes == extended(before, Leg::Line(x, y))
        }),
{
    reveal_strlit("M");
    reveal_strlit("L");
    let (head, letter) = if first {
        ("M"@, 'M')
    } else {
        ("L"@, 'L')
    };
    assert(head =~= seq![letter]);
    let a = four_places(q.x as int);
    let b = four_places(q.y as int);
    law_four_places_read_back(q.x as int);
    law_four_places_read_back(q.y as int);
    lemma_penned_command(v, head, letter, 4);
    let w0 = penned(v, head, 4);
    lemma_penned_add(v, head, a, 4);
    lemma_penned_letters(w0, a, 4);
    let w1 = penned(v, head + a, 4);
    assert(w0.word + a =~= a);
    lemma_penned_add(v, head + a, " "@, 4);
    lemma_penned_space(w1, 4);
    let w2 = penned(v, head + a + " "@, 4);
    lemma_penned_add(v, head + a + " "@, b, 4);
    lemma_penned_letters(w2, b, 4);
    assert(w2.word + b =~= b);
    assert(corner_text(q, first) =~= head + a + " "@ + b);
}

proof fn lemma_corners(pts: Seq<Point>)
    requires
        pts.len() > 0,
    ensures
        ({
            let w = settled(penned(fresh(), corners_text(pts), 4), 4);
            &&& w.sound
            &&& w.strokes == seq![
                Stroke {
                    start: corner_read(pts[0]),
                    legs: Seq::new(
                        (pts.len() - 1) as nat,
                        |k: int| Leg::Line(corner_read(pts[k + 1]).0, corner_read(pts[k + 1]).1),
                    ),
                    closed: false,
                },
            ]
        }),
    decreases pts.len(),
{
    let rest = pts.drop_last();
    let legs = Seq::new(
        (pts.len() - 1) as nat,
        |k: int| Leg::Line(corner_read(pts[k + 1]).0, corner_read(pts[k + 1]).1),
    );
    let all = seq![Stroke { start: corner_read(pts[0]), legs, closed: false }];
    lemma_penned_add(fresh(), corners_text(rest), corner_text(pts.last(), pts.len() == 1), 4);
    let v = penned(fresh(), corners_text(rest), 4);
    if rest.len() == 0 {
        assert(corners_text(rest) =~= seq![]);
        assert(v == fresh());
        lemma_corner(v, pts.last(), true);
        let w = settled(penned(v, corner_text(pts.last(), true), 4), 4);
        assert(legs =~= seq![]);
        assert(w.strokes =~= all);
    } else {
        lemma_corners(rest);
        lemma_corner(v, pts.last(), false);
        let before = settled(v, 4).strokes;
        let (x, y) = corner_read(pts.last());
        assert(before.drop_last() =~= seq![]);
        assert(before.last().legs.push(Leg::Line(x, y)) =~= legs);
        assert(extended(before, Leg::Line(x, y)) =~= all);
    }
}

/// The path of a polygon goes from its first corner along the others in order and is
/// closed.
pub proof fn law_polygons_read_back(pts: Seq<Point>)
    requires
        pts.len() > 0,
    ensures
        ({
            let w = settled(penned(fresh(), corners_text(pts) + "Z"@, 4), 4);
            &&& w.sound
            &&& w.strokes.len() == 1
            &&& w.strokes[0].start == corner_read(pts[0])
            &&& w.strokes[0].closed
            &&& w.strokes[0].legs.len() == pts.len() - 1
            &&& forall|k: int|
                0 < k < pts.len() ==> w.strokes[0].legs[k - 1] == Leg::Line(
                    corner_read(#[trigger] pts[k]).0,
                    corner_read(pts[k]).1,
                )
        }),
{
    reveal_strlit("Z");
    assert("Z"@ =~= seq!['Z']);
    lemma_corners(pts);
    let v = penned(fresh(), corners_text(pts), 4);
    lemma_penned_add(fresh(), corners_text(pts), "Z"@, 4);
    lemma_penned_command(v, "Z"@, 'Z', 4);
}

/// A circle is one element with its centre, its radius and its colour, each under its own
/// name.
pub proof fn law_circles_are_circle_elements(centre: Point, radius: i64, color: Rgba8)
    ensures
        divided(
            nothing(),
            item_text(SceneItem { shape: SceneShape::Circle { centre, radius }, color }),
        ) == (Markup {
            parts: seq![
                "<circle cx="@,
                four_places(centre.x as int),
                " cy="@,
                four_places(centre.y as int),
                " r="@,
                four_places(radius as int),
                " fill="@,
                hex_form(color),
            ],
            rest: "/>\n"@,
        }),
{
    lemma_circle_texts();
    law_four_places_read_back(centre.x as int);
    law_four_places_read_back(centre.y as int);
    law_four_places_read_back(radius as int);
    lemma_hex_is_plain(color);
    let x = four_places(centre.x as int);
    let y = four_places(centre.y as int);
    let r = four_places(radius as int);
    let c = hex_form(color);
    let v0 = nothing();
    let v1 = Markup { parts: v0.parts.push(v0.rest + "<circle cx="@), rest: seq![] };
    let v2 = Markup { rest: x, ..v1 };
    let v3 = Markup { parts: v2.parts.push(x).push(" cy="@), rest: seq![] };
    let v4 = Markup { rest: y, ..v3 };
    let v5 = Markup { parts: v4.parts.push(y).push(" r="@), rest: seq![] };
    let v6 = Markup { rest: r, ..v5 };
    let v7 = Markup { parts: v6.parts.push(r).push(" fill="@), rest: seq![] };
    let v8 = Markup { rest: c, ..v7 };
    let v9 = Markup { parts: v8.parts.push(c), rest: "/>\n"@ };
    let t1 = "<circle cx=\""@;
    let t2 = t1 + x;
    let t3 = t2 + "\" cy=\""@;
    let t4 = t3 + y;
    let t5 = t4 + "\" r=\""@;
    let t6 = t5 + r;
    let t7 = t6 + "\" fill=\""@;
    let t8 = t7 + c;
    lemma_opened(v0, t1, "<circle cx="@);
    lemma_value(v1, x);
    lemma_yields_on(v0, t1, v1, x, v2);
    lemma_reopened(v2, "\" cy=\""@, " cy="@);
    lemma_yields_on(v0, t2, v2, "\" cy=\""@, v3);
    lemma_value(v3, y);
    lemma_yields_on(v0, t3, v3, y, v4);
    lemma_reopened(v4, "\" r=\""@, " r="@);
    lemma_yields_on(v0, t4, v4, "\" r=\""@, v5);
    lemma_value(v5, r);
    lemma_yields_on(v0, t5, v5, r, v6);
    lemma_reopened(v6, "\" fill=\""@, " fill="@);
    lemma_yields_on(v0, t6, v6, "\" fill=\""@, v7);
    lemma_value(v7, c);
    lemma_yields_on(v0, t7, v7, c, v8);
    lemma_closed(v8, "\"/>\n"@, "/>\n"@);
    lemma_yields_on(v0, t8, v8, "\"/>\n"@, v9);
    reveal(yields);
    assert(v0.rest + "<circle cx="@ =~= "<circle cx="@);
    assert(v9.parts =~= seq!["<circle cx="@, x, " cy="@, y, " r="@, r, " fill="@, c]);
}

proof fn lemma_circle_texts()
    ensures
        opens("<circle cx=\""@, "<circle cx="@),
        "\" cy=\""@ == (seq!['"'] + " cy="@).push('"'),
        is_plain(" cy="@),
        "\" r=\""@ == (seq!['"'] + " r="@).push('"'),
        is_plain(" r="@),
        "\" fill=\""@ == (seq!['"'] + " fill="@).push('"'),
        is_plain(" fill="@),
        "\"/>\n"@ == seq!['"'] + "/>\n"@,
        is_plain("/>\n"@),
{
    reveal_strlit("<circle cx=\"");
    reveal_strlit("<circle cx=");
    assert("<circle cx=\""@ =~= "<circle cx="@.push('"'));
    reveal_strlit("\" cy=\"");
    reveal_strlit(" cy=");
    assert("\" cy=\""@ =~= (seq!['"'] + " cy="@).push('"'));
    reveal_strlit("\" r=\"");
    reveal_strlit(" r=");
    assert("\" r=\""@ =~= (seq!['"'] + " r="@).push('"'));
    reveal_strlit("\" fill=\"");
    reveal_strlit(" fill=");
    assert("\" fill=\""@ =~= (seq!['"'] + " fill="@).push('"'));
    reveal_strlit("\"/>\n");
    reveal_strlit("/>\n");
    assert("\"/>\n"@ =~= seq!['"'] + "/>\n"@);
}

} // verus!
