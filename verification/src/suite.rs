//! The standard benchmark suite: synthetic images that exercise the specific
//! things a tracer claims to do well. Sub-pixel edges at awkward angles, shared
//! borders between three or more colours, real corners sitting next to
//! compression noise, and hard pixel edges that must not be smoothed.

use crate::color::Rgba8;
use crate::export::Point;
use crate::pure::{call3, pure3, value3};
use crate::quantize::{rng_output, rng_seeded, rng_step, Rng};
use crate::synth::{
    polygon_corners, regular_polygon, rgb, star, star_corners, Scene, SceneItem, SceneShape, Turn,
};
use vstd::prelude::*;

verus! {

/// One benchmark case: a name, what it is meant to probe, and the input image.
pub struct TestImage {
    pub name: &'static str,
    pub description: &'static str,
    pub picture: Picture,
}

/// How an image of the suite is made.
pub enum Picture {
    /// A scene; its exact geometry is known.
    Scene { scene: Scene, supersample: u32 },
    /// A scene that is damaged after rendering.
    Weathered { scene: Scene, supersample: u32 },
    /// A square of square blocks, `across` in a row and `side` pixels wide, each
    /// of one of `colors` flat colours.
    Blocks { cells: Vec<usize>, across: u32, side: u32, colors: usize },
    /// Colours that change smoothly over the whole image.
    Gradient { width: u32, height: u32 },
}

// ---- Descriptions -------------------------------------------------------

/// A shape by its outline.
pub ghost enum Outline {
    Polygon(Seq<Point>),
    Circle(Point, int),
    Ring(Point, int, int),
}

pub open spec fn outline_of(s: SceneShape) -> Outline {
    match s {
        SceneShape::Polygon(pts) => Outline::Polygon(pts@),
        SceneShape::Circle { centre, radius } => Outline::Circle(centre, radius as int),
        SceneShape::Ring { centre, outer, inner } => Outline::Ring(
            centre,
            outer as int,
            inner as int,
        ),
    }
}

pub open spec fn outlines_of(items: Seq<SceneItem>) -> Seq<(Outline, Rgba8)> {
    Seq::new(items.len(), |k: int| (outline_of(items[k].shape), items[k].color))
}

/// The scene has this size, this background and these shapes.
pub open spec fn is_scene(
    s: Scene,
    width: u32,
    height: u32,
    background: Rgba8,
    shapes: Seq<(Outline, Rgba8)>,
) -> bool {
    &&& s.width == width
    &&& s.height == height
    &&& s.background == background
    &&& outlines_of(s.items@) == shapes
}

/// Tenths of a pixel in billionths.
pub open spec fn tenths(v: int) -> int {
    v * 100_000_000
}

pub open spec fn spot(x: int, y: int) -> Point {
    Point { x: tenths(x) as i64, y: tenths(y) as i64 }
}

fn length(v: i64) -> (l: i64)
    requires
        0 <= v <= 2_000,
    ensures
        l == tenths(v as int),
{
    v * 100_000_000
}

fn at(x: i64, y: i64) -> (p: Point)
    requires
        0 <= x <= 2_000,
        0 <= y <= 2_000,
    ensures
        p == spot(x as int, y as int),
{
    Point { x: length(x), y: length(y) }
}

fn quad(a: Point, b: Point, c: Point, d: Point) -> (s: SceneShape)
    ensures
        outline_of(s) == Outline::Polygon(seq![a, b, c, d]),
{
    let mut pts: Vec<Point> = Vec::new();
    pts.push(a);
    pts.push(b);
    pts.push(c);
    pts.push(d);
    assert(pts@ =~= seq![a, b, c, d]);
    SceneShape::Polygon(pts)
}

fn triangle(a: Point, b: Point, c: Point) -> (s: SceneShape)
    ensures
        outline_of(s) == Outline::Polygon(seq![a, b, c]),
{
    let mut pts: Vec<Point> = Vec::new();
    pts.push(a);
    pts.push(b);
    pts.push(c);
    assert(pts@ =~= seq![a, b, c]);
    SceneShape::Polygon(pts)
}

/// The corners of wedge `k` of five: the centre, and a fifth of a circle in small
/// steps.
pub open spec fn wedge_corners<F: Fn(Point, i64, Turn) -> Point>(on_circle: F, k: int) -> Seq<
    Point,
> {
    Seq::new(
        26,
        |i: int|
            if i == 0 {
                spot(800, 800)
            } else {
                value3(
                    on_circle,
                    spot(800, 800),
                    tenths(1100) as i64,
                    Turn { part: (24 * k + i - 1) as i64, of: 120, plus: 0 },
                )
            },
    )
}

fn wedge<F: Fn(Point, i64, Turn) -> Point>(on_circle: &F, k: i64) -> (s: SceneShape)
    requires
        pure3(*on_circle),
        0 <= k < 5,
    ensures
        outline_of(s) == Outline::Polygon(wedge_corners(*on_circle, k as int)),
{
    let mut pts: Vec<Point> = Vec::new();
    pts.push(at(800, 800));
    let mut i: i64 = 0;
    while i <= 24
        invariant
            pure3(*on_circle),
            0 <= k < 5,
            0 <= i <= 25,
            pts@.len() == i + 1,
            forall|j: int|
                0 <= j <= i ==> #[trigger] pts@[j] == wedge_corners(*on_circle, k as int)[j],
        decreases 25 - i,
    {
        let turn = Turn { part: 24 * k + i, of: 120, plus: 0 };
        pts.push(call3(on_circle, at(800, 800), length(1100), turn));
        i = i + 1;
    }
    assert(pts@ =~= wedge_corners(*on_circle, k as int));
    SceneShape::Polygon(pts)
}

fn paint(items: &mut Vec<SceneItem>, shape: SceneShape, color: Rgba8)
    ensures
        outlines_of(final(items)@) == outlines_of(old(items)@).push((outline_of(shape), color)),
{
    let ghost before = items@;
    items.push(SceneItem { shape, color });
    assert(outlines_of(items@) =~= outlines_of(before).push((outline_of(shape), color)));
}

// ---- Scenes -------------------------------------------------------------

pub open spec fn hard_rects_shapes() -> Seq<(Outline, Rgba8)> {
    seq![
        (
            Outline::Polygon(seq![spot(200, 200), spot(1000, 200), spot(1000, 700), spot(200, 700)]),
            Rgba8 { r: 30, g: 60, b: 180, a: 255 },
        ),
        (
            Outline::Polygon(seq![spot(700, 500), spot(1400, 500), spot(1400, 1000), spot(700, 1000)]),
            Rgba8 { r: 220, g: 60, b: 40, a: 255 },
        ),
    ]
}

/// Hard-edged rectangles: must round-trip exactly, no smoothing, no drift.
fn hard_rects() -> (s: Scene)
    ensures
        is_scene(s, 160, 120, Rgba8 { r: 255, g: 255, b: 255, a: 255 }, hard_rects_shapes()),
{
    let mut items: Vec<SceneItem> = Vec::new();
    assert(outlines_of(items@) =~= Seq::<(Outline, Rgba8)>::empty());
    paint(
        &mut items,
        quad(at(200, 200), at(1000, 200), at(1000, 700), at(200, 700)),
        rgb(30, 60, 180),
    );
    paint(
        &mut items,
        quad(at(700, 500), at(1400, 500), at(1400, 1000), at(700, 1000)),
        rgb(220, 60, 40),
    );
    assert(outlines_of(items@) =~= hard_rects_shapes());
    Scene { width: 160, height: 120, background: rgb(255, 255, 255), items }
}

pub open spec fn aa_circle_shapes() -> Seq<(Outline, Rgba8)> {
    seq![
        (
            Outline::Circle(spot(803, 797), tenths(524)),
            Rgba8 { r: 25, g: 110, b: 190, a: 255 },
        ),
    ]
}

/// Anti-aliased circle: the classic control-point economy test.
fn aa_circle() -> (s: Scene)
    ensures
        is_scene(s, 160, 160, Rgba8 { r: 250, g: 250, b: 245, a: 255 }, aa_circle_shapes()),
{
    let mut items: Vec<SceneItem> = Vec::new();
    assert(outlines_of(items@) =~= Seq::<(Outline, Rgba8)>::empty());
    paint(
        &mut items,
        SceneShape::Circle { centre: at(803, 797), radius: length(524) },
        rgb(25, 110, 190),
    );
    assert(outlines_of(items@) =~= aa_circle_shapes());
    Scene { width: 160, height: 160, background: rgb(250, 250, 245), items }
}

pub open spec fn slants_shapes() -> Seq<(Outline, Rgba8)> {
    seq![
        (
            Outline::Polygon(seq![spot(100, 123), spot(1900, 407), spot(1900, 581), spot(100, 299)]),
            Rgba8 { r: 40, g: 40, b: 40, a: 255 },
        ),
        (
            Outline::Polygon(seq![spot(184, 700), spot(469, 1320), spot(662, 1320), spot(377, 700)]),
            Rgba8 { r: 200, g: 90, b: 20, a: 255 },
        ),
        (
            Outline::Polygon(seq![spot(900, 725), spot(1800, 1185), spot(1200, 1320)]),
            Rgba8 { r: 20, g: 140, b: 90, a: 255 },
        ),
    ]
}

/// Slanted edges at awkward angles: where pixel-snapping tracers show
/// stair-stepping most clearly.
fn slants() -> (s: Scene)
    ensures
        is_scene(s, 200, 140, Rgba8 { r: 255, g: 255, b: 255, a: 255 }, slants_shapes()),
{
    let mut items: Vec<SceneItem> = Vec::new();
    assert(outlines_of(items@) =~= Seq::<(Outline, Rgba8)>::empty());
    paint(
        &mut items,
        quad(at(100, 123), at(1900, 407), at(1900, 581), at(100, 299)),
        rgb(40, 40, 40),
    );
    paint(
        &mut items,
        quad(at(184, 700), at(469, 1320), at(662, 1320), at(377, 700)),
        rgb(200, 90, 20),
    );
    paint(&mut items, triangle(at(900, 725), at(1800, 1185), at(1200, 1320)), rgb(20, 140, 90));
    assert(outlines_of(items@) =~= slants_shapes());
    Scene { width: 200, height: 140, background: rgb(255, 255, 255), items }
}

pub open spec fn junctions_shapes<F: Fn(Point, i64, Turn) -> Point>(on_circle: F) -> Seq<(Outline, Rgba8)> {
    seq![
        (
            Outline::Polygon(wedge_corners(on_circle, 0)),
            Rgba8 { r: 210, g: 70, b: 60, a: 255 },
        ),
        (
            Outline::Polygon(wedge_corners(on_circle, 1)),
            Rgba8 { r: 60, g: 150, b: 210, a: 255 },
        ),
        (
            Outline::Polygon(wedge_corners(on_circle, 2)),
            Rgba8 { r: 240, g: 190, b: 50, a: 255 },
        ),
        (
            Outline::Polygon(wedge_corners(on_circle, 3)),
            Rgba8 { r: 90, g: 180, b: 90, a: 255 },
        ),
        (
            Outline::Polygon(wedge_corners(on_circle, 4)),
            Rgba8 { r: 140, g: 90, b: 180, a: 255 },
        ),
    ]
}

/// Five wedges meeting at a single point: the hardest case for shared-border
/// integrity, since a tracer that stacks silhouettes leaves seams radiating from
/// the centre.
fn junctions<F: Fn(Point, i64, Turn) -> Point>(on_circle: &F) -> (s: Scene)
    requires
        pure3(*on_circle),
    ensures
        is_scene(s, 160, 160, Rgba8 { r: 245, g: 245, b: 245, a: 255 }, junctions_shapes(*on_circle)),
{
    let mut items: Vec<SceneItem> = Vec::new();
    assert(outlines_of(items@) =~= Seq::<(Outline, Rgba8)>::empty());
    paint(&mut items, wedge(on_circle, 0), rgb(210, 70, 60));
    paint(&mut items, wedge(on_circle, 1), rgb(60, 150, 210));
    paint(&mut items, wedge(on_circle, 2), rgb(240, 190, 50));
    paint(&mut items, wedge(on_circle, 3), rgb(90, 180, 90));
    paint(&mut items, wedge(on_circle, 4), rgb(140, 90, 180));
    assert(outlines_of(items@) =~= junctions_shapes(*on_circle));
    Scene { width: 160, height: 160, background: rgb(245, 245, 245), items }
}

pub open spec fn sharp_star_shapes<F: Fn(Point, i64, Turn) -> Point>(on_circle: F) -> Seq<(Outline, Rgba8)> {
    seq![
        (
            Outline::Polygon(
                star_corners(
                    on_circle,
                    spot(800, 800),
                    tenths(660) as i64,
                    tenths(270) as i64,
                    7,
                ),
            ),
            Rgba8 { r: 230, g: 160, b: 20, a: 255 },
        ),
    ]
}

/// Sharp corners: a star has unmistakable vertices that must stay sharp.
fn sharp_star<F: Fn(Point, i64, Turn) -> Point>(on_circle: &F) -> (s: Scene)
    requires
        pure3(*on_circle),
    ensures
        is_scene(s, 160, 160, Rgba8 { r: 255, g: 255, b: 255, a: 255 }, sharp_star_shapes(*on_circle)),
{
    let mut items: Vec<SceneItem> = Vec::new();
    assert(outlines_of(items@) =~= Seq::<(Outline, Rgba8)>::empty());
    paint(
        &mut items,
        star(on_circle, at(800, 800), length(660), length(270), 7),
        rgb(230, 160, 20),
    );
    assert(outlines_of(items@) =~= sharp_star_shapes(*on_circle));
    Scene { width: 160, height: 160, background: rgb(255, 255, 255), items }
}

pub open spec fn rings_shapes() -> Seq<(Outline, Rgba8)> {
    seq![
        (
            Outline::Ring(spot(800, 800), tenths(700), tenths(480)),
            Rgba8 { r: 40, g: 90, b: 160, a: 255 },
        ),
        (
            Outline::Ring(spot(800, 800), tenths(360), tenths(180)),
            Rgba8 { r: 200, g: 70, b: 60, a: 255 },
        ),
    ]
}

/// A shape with a genuine hole, plus nesting.
fn rings() -> (s: Scene)
    ensures
        is_scene(s, 160, 160, Rgba8 { r: 255, g: 255, b: 255, a: 255 }, rings_shapes()),
{
    let mut items: Vec<SceneItem> = Vec::new();
    assert(outlines_of(items@) =~= Seq::<(Outline, Rgba8)>::empty());
    paint(
        &mut items,
        SceneShape::Ring { centre: at(800, 800), outer: length(700), inner: length(480) },
        rgb(40, 90, 160),
    );
    paint(
        &mut items,
        SceneShape::Ring { centre: at(800, 800), outer: length(360), inner: length(180) },
        rgb(200, 70, 60),
    );
    assert(outlines_of(items@) =~= rings_shapes());
    Scene { width: 160, height: 160, background: rgb(255, 255, 255), items }
}

pub open spec fn logo_shapes<F: Fn(Point, i64, Turn) -> Point>(on_circle: F) -> Seq<(Outline, Rgba8)> {
    seq![
        (
            Outline::Polygon(
                polygon_corners(
                    on_circle,
                    spot(1000, 1000),
                    tenths(860) as i64,
                    6,
                    300_000_000,
                ),
            ),
            Rgba8 { r: 28, g: 42, b: 92, a: 255 },
        ),
        (
            Outline::Polygon(
                polygon_corners(
                    on_circle,
                    spot(1000, 1000),
                    tenths(580) as i64,
                    3,
                    (-400_000_000) as i64,
                ),
            ),
            Rgba8 { r: 240, g: 200, b: 40, a: 255 },
        ),
        (
            Outline::Circle(spot(1000, 1180), tenths(240)),
            Rgba8 { r: 220, g: 60, b: 50, a: 255 },
        ),
    ]
}

/// Flat-colour logo: several shapes, hard palette, the bread-and-butter case.
fn logo<F: Fn(Point, i64, Turn) -> Point>(on_circle: &F) -> (s: Scene)
    requires
        pure3(*on_circle),
    ensures
        is_scene(s, 200, 200, Rgba8 { r: 255, g: 255, b: 255, a: 255 }, logo_shapes(*on_circle)),
{
    let mut items: Vec<SceneItem> = Vec::new();
    assert(outlines_of(items@) =~= Seq::<(Outline, Rgba8)>::empty());
    paint(
        &mut items,
        regular_polygon(on_circle, at(1000, 1000), length(860), 6, 300_000_000),
        rgb(28, 42, 92),
    );
    paint(
        &mut items,
        regular_polygon(on_circle, at(1000, 1000), length(580), 3, -400_000_000),
        rgb(240, 200, 40),
    );
    paint(
        &mut items,
        SceneShape::Circle { centre: at(1000, 1180), radius: length(240) },
        rgb(220, 60, 50),
    );
    assert(outlines_of(items@) =~= logo_shapes(*on_circle));
    Scene { width: 200, height: 200, background: rgb(255, 255, 255), items }
}

pub open spec fn weathered_shapes<F: Fn(Point, i64, Turn) -> Point>(on_circle: F) -> Seq<(Outline, Rgba8)> {
    seq![
        (
            Outline::Polygon(seq![spot(200, 200), spot(840, 200), spot(840, 1200), spot(200, 1200)]),
            Rgba8 { r: 40, g: 40, b: 120, a: 255 },
        ),
        (
            Outline::Polygon(
                star_corners(
                    on_circle,
                    spot(1300, 700),
                    tenths(440) as i64,
                    tenths(190) as i64,
                    5,
                ),
            ),
            Rgba8 { r: 220, g: 120, b: 30, a: 255 },
        ),
    ]
}

/// Noisy artwork: real corners buried in compression-like artefacts. This is the
/// case that punishes a single blanket smoothing filter.
fn weathered<F: Fn(Point, i64, Turn) -> Point>(on_circle: &F) -> (s: Scene)
    requires
        pure3(*on_circle),
    ensures
        is_scene(s, 180, 140, Rgba8 { r: 250, g: 250, b: 250, a: 255 }, weathered_shapes(*on_circle)),
{
    let mut items: Vec<SceneItem> = Vec::new();
    assert(outlines_of(items@) =~= Seq::<(Outline, Rgba8)>::empty());
    paint(
        &mut items,
        quad(at(200, 200), at(840, 200), at(840, 1200), at(200, 1200)),
        rgb(40, 40, 120),
    );
    paint(
        &mut items,
        star(on_circle, at(1300, 700), length(440), length(190), 5),
        rgb(220, 120, 30),
    );
    assert(outlines_of(items@) =~= weathered_shapes(*on_circle));
    Scene { width: 180, height: 140, background: rgb(250, 250, 250), items }
}

pub open spec fn see_through_shapes<F: Fn(Point, i64, Turn) -> Point>(on_circle: F) -> Seq<(Outline, Rgba8)> {
    seq![
        (
            Outline::Circle(spot(600, 700), tenths(400)),
            Rgba8 { r: 200, g: 50, b: 90, a: 255 },
        ),
        (
            Outline::Polygon(
                polygon_corners(
                    on_circle,
                    spot(950, 750),
                    tenths(380) as i64,
                    5,
                    200_000_000,
                ),
            ),
            Rgba8 { r: 40, g: 150, b: 180, a: 255 },
        ),
    ]
}

/// Transparency: alpha must survive and not be painted onto a background.
fn see_through<F: Fn(Point, i64, Turn) -> Point>(on_circle: &F) -> (s: Scene)
    requires
        pure3(*on_circle),
    ensures
        is_scene(s, 140, 140, Rgba8 { r: 0, g: 0, b: 0, a: 0 }, see_through_shapes(*on_circle)),
{
    let mut items: Vec<SceneItem> = Vec::new();
    assert(outlines_of(items@) =~= Seq::<(Outline, Rgba8)>::empty());
    paint(
        &mut items,
        SceneShape::Circle { centre: at(600, 700), radius: length(400) },
        rgb(200, 50, 90),
    );
    paint(
        &mut items,
        regular_polygon(on_circle, at(950, 750), length(380), 5, 200_000_000),
        rgb(40, 150, 180),
    );
    assert(outlines_of(items@) =~= see_through_shapes(*on_circle));
    Scene { width: 140, height: 140, background: Rgba8::transparent(), items }
}

// ---- The suite ----------------------------------------------------------

/// The first `k` numbers below `n` that a generator in this state hands out.
pub open spec fn draws(state: u64, n: int, k: int) -> (Seq<usize>, u64)
    decreases k,
{
    if k <= 0 {
        (Seq::empty(), state)
    } else {
        let (before, at) = draws(state, n, k - 1);
        let next = rng_step(at);
        (before.push((rng_output(next) as int % n) as usize), next)
    }
}

/// The blocks of the pixel art.
pub open spec fn block_cells() -> Seq<usize> {
    draws(rng_seeded(0xA11CE), 5, 256).0
}

/// Pixel art: hard blocks that must not be smoothed or shifted.
fn pixel_art() -> (cells: Vec<usize>)
    ensures
        cells@ == block_cells(),
        cells@.len() == 256,
        forall|i: int| 0 <= i < cells@.len() ==> (#[trigger] cells@[i]) < 5,
{
    let mut rng: Rng = Rng::new(0xA11CE);
    let ghost start = rng.state();
    let mut cells: Vec<usize> = Vec::new();
    while cells.len() < 256
        invariant
            cells@.len() <= 256,
            (cells@, rng.state()) == draws(start, 5, cells@.len() as int),
            forall|i: int| 0 <= i < cells@.len() ==> (#[trigger] cells@[i]) < 5,
        decreases 256 - cells@.len(),
    {
        let v: usize = rng.below(5);
        cells.push(v);
    }
    cells
}

/// The case has this name and description, and shows this scene.
pub open spec fn shows(
    t: TestImage,
    name: Seq<char>,
    description: Seq<char>,
    width: u32,
    height: u32,
    background: Rgba8,
    shapes: Seq<(Outline, Rgba8)>,
    samples: u32,
) -> bool {
    &&& t.name@ == name
    &&& t.description@ == description
    &&& t.picture matches Picture::Scene { scene, supersample }
    &&& supersample == samples
    &&& is_scene(scene, width, height, background, shapes)
}

pub open spec fn white() -> Rgba8 {
    Rgba8 { r: 255, g: 255, b: 255, a: 255 }
}

/// The standard suite, in order.
pub open spec fn is_suite<F: Fn(Point, i64, Turn) -> Point>(on_circle: F, s: Seq<TestImage>) -> bool {
    &&& s.len() == 11
    &&& shows(
        s[0],
        "hard-rects"@,
        "Aliased rectangles; geometry must survive untouched"@,
        160,
        120,
        white(),
        hard_rects_shapes(),
        1,
    )
    &&& shows(
        s[1],
        "aa-circle"@,
        "Anti-aliased disc; few points, sub-pixel accurate"@,
        160,
        160,
        Rgba8 { r: 250, g: 250, b: 245, a: 255 },
        aa_circle_shapes(),
        8,
    )
    &&& shows(
        s[2],
        "slants"@,
        "Shallow and steep straight edges; sub-pixel edge recovery"@,
        200,
        140,
        white(),
        slants_shapes(),
        8,
    )
    &&& shows(
        s[3],
        "junctions"@,
        "Wedges meeting at a point; shared-border integrity"@,
        160,
        160,
        Rgba8 { r: 245, g: 245, b: 245, a: 255 },
        junctions_shapes(on_circle),
        8,
    )
    &&& shows(
        s[4],
        "star"@,
        "Sharp convex and reflex corners; corner preservation"@,
        160,
        160,
        white(),
        sharp_star_shapes(on_circle),
        8,
    )
    &&& shows(
        s[5],
        "rings"@,
        "Nested holes; correct even-odd topology"@,
        160,
        160,
        white(),
        rings_shapes(),
        8,
    )
    &&& shows(
        s[6],
        "logo"@,
        "Flat-colour logo; palette fidelity and compactness"@,
        200,
        200,
        white(),
        logo_shapes(on_circle),
        8,
    )
    &&& s[7].name@ == "pixel-art"@
    &&& s[7].description@ == "Blocky pixel art; must stay perfectly rectilinear"@
    &&& s[7].picture matches Picture::Blocks { cells, across, side, colors } && cells@
        == block_cells() && across == 16 && side == 8 && colors == 5
    &&& s[8].name@ == "noisy-shapes"@
    &&& s[8].description@ == "Sharp shapes plus block artefacts and noise"@
    &&& s[8].picture matches Picture::Weathered { scene, supersample } && supersample == 8
        && is_scene(scene, 180, 140, Rgba8 { r: 250, g: 250, b: 250, a: 255 }, weathered_shapes(on_circle))
    &&& shows(
        s[9],
        "alpha"@,
        "Shapes on a transparent background"@,
        140,
        140,
        Rgba8 { r: 0, g: 0, b: 0, a: 0 },
        see_through_shapes(on_circle),
        8,
    )
    &&& s[10].name@ == "gradient"@
    &&& s[10].description@ == "Smooth gradient; worst case for flat-region tracing"@
    &&& s[10].picture == (Picture::Gradient { width: 160, height: 120 })
}

fn of_scene(
    name: &'static str,
    description: &'static str,
    scene: Scene,
    supersample: u32,
) -> (t: TestImage)
    ensures
        t.name@ == name@,
        t.description@ == description@,
        t.picture == (Picture::Scene { scene, supersample }),
{
    TestImage { name, description, picture: Picture::Scene { scene, supersample } }
}

/// The standard benchmark suite. `on_circle` gives the point at an angle on the
/// circle with a centre and a radius.
pub fn suite<F: Fn(Point, i64, Turn) -> Point>(on_circle: &F) -> (out: Vec<TestImage>)
    requires
        pure3(*on_circle),
    ensures
        is_suite(*on_circle, out@),
{
    let mut out: Vec<TestImage> = Vec::new();
    out.push(
        of_scene(
            "hard-rects",
            "Aliased rectangles; geometry must survive untouched",
            hard_rects(),
            1,
        ),
    );
    out.push(
        of_scene(
            "aa-circle",
            "Anti-aliased disc; few points, sub-pixel accurate",
            aa_circle(),
            8,
        ),
    );
    out.push(
        of_scene(
            "slants",
            "Shallow and steep straight edges; sub-pixel edge recovery",
            slants(),
            8,
        ),
    );
    out.push(
        of_scene(
            "junctions",
            "Wedges meeting at a point; shared-border integrity",
            junctions(on_circle),
            8,
        ),
    );
    out.push(
        of_scene(
            "star",
            "Sharp convex and reflex corners; corner preservation",
            sharp_star(on_circle),
            8,
        ),
    );
    out.push(
        of_scene(
            "rings",
            "Nested holes; correct even-odd topology",
            rings(),
            8,
        ),
    );
    out.push(
        of_scene(
            "logo",
            "Flat-colour logo; palette fidelity and compactness",
            logo(on_circle),
            8,
        ),
    );
    out.push(
        TestImage {
            name: "pixel-art",
            description: "Blocky pixel art; must stay perfectly rectilinear",
            picture: Picture::Blocks { cells: pixel_art(), across: 16, side: 8, colors: 5 },
        },
    );
    out.push(
        TestImage {
            name: "noisy-shapes",
            description: "Sharp shapes plus block artefacts and noise",
            picture: Picture::Weathered { scene: weathered(on_circle), supersample: 8 },
        },
    );
    out.push(
        of_scene(
            "alpha",
            "Shapes on a transparent background",
            see_through(on_circle),
            8,
        ),
    );
    // The hardest case for a flat-fill tracer, included so that the benchmark
    // reports an honest worst case rather than only wins.
    out.push(
        TestImage {
            name: "gradient",
            description: "Smooth gradient; worst case for flat-region tracing",
            picture: Picture::Gradient { width: 160, height: 120 },
        },
    );
    out
}

} // verus!
