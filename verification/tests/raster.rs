use vectify::color::Rgba8;
use vectify::raster::{canvas_raster, rasterize_svg, Raster, RasterError, Span};
use vectify::score::{count_matched, largest, p95, sum};
use vectify::suite::{suite, Picture};
use vectify::synth::{regular_polygon, rgb, star, Scene, SceneItem, SceneShape, Turn};
use vectify::export::Point;

/// A 2x1 PNG: red, then half-transparent blue.
const PNG: [u8; 71] = [
    0x89, 0x50, 0x4e, 0x47, 0x0d, 0x0a, 0x1a, 0x0a, 0x00, 0x00, 0x00, 0x0d, 0x49, 0x48, 0x44, 0x52,
    0x00, 0x00, 0x00, 0x02, 0x00, 0x00, 0x00, 0x01, 0x08, 0x06, 0x00, 0x00, 0x00, 0xf4, 0x22, 0x7f,
    0x8a, 0x00, 0x00, 0x00, 0x0e, 0x49, 0x44, 0x41, 0x54, 0x78, 0x9c, 0x63, 0xf8, 0xcf, 0xc0, 0x00,
    0x42, 0x0d, 0x00, 0x0f, 0x7a, 0x03, 0x7e, 0x77, 0xe9, 0x7f, 0x97, 0x00, 0x00, 0x00, 0x00, 0x49,
    0x45, 0x4e, 0x44, 0xae, 0x42, 0x60, 0x82,
];

fn grid(w: u32, h: u32) -> Raster<u32> {
    let mut r = Raster::new(w, h, 0);
    for y in 0..h {
        for x in 0..w {
            r.set(x, y, 10 * y + x);
        }
    }
    r
}

#[test]
fn pixels_are_addressed_by_row() {
    let r = grid(4, 3);
    assert_eq!(r.pixel_count(), 12);
    assert_eq!(r.idx(3, 2), 11);
    assert_eq!(r.get(3, 2), 23);
    assert_eq!(r.get_clamped(-5, 1), 10);
    assert_eq!(r.get_clamped(99, 99), 23);
}

#[test]
fn bytes_become_pixels_and_back() {
    let bytes: Vec<u8> = (0..24).collect();
    let r = Raster::from_rgba8(3, 2, &bytes).unwrap();
    assert_eq!(r.pixel_rgba8(2, 1), Rgba8::new(20, 21, 22, 23));
    assert_eq!(r.to_rgba8_bytes(), bytes);
    // Bytes past the last pixel are ignored.
    let more: Vec<u8> = (0..30).collect();
    assert_eq!(Raster::from_rgba8(3, 2, &more).unwrap().to_rgba8_bytes(), bytes);
}

#[test]
fn a_short_buffer_is_an_error() {
    let err = Raster::from_rgba8(3, 2, &[0; 23]).unwrap_err();
    assert_eq!(err, RasterError::TooSmall { len: 23, width: 3, height: 2 });
    assert_eq!(err.message(), "buffer too small: 23 bytes for 3x2 image (need 24)");
    let huge = Raster::from_rgba8(u32::MAX, u32::MAX, &[]).unwrap_err();
    assert_eq!(
        huge.message(),
        "buffer too small: 0 bytes for 4294967295x4294967295 image (need 73786976260478468100)"
    );
}

#[test]
fn png_bytes_decode() {
    let r = Raster::from_bytes(&PNG).unwrap();
    assert_eq!((r.width, r.height), (2, 1));
    assert_eq!(r.data, vec![Rgba8::opaque(255, 0, 0), Rgba8::new(0, 0, 255, 128)]);
}

#[test]
fn other_bytes_do_not() {
    let err = Raster::from_bytes(b"not an image").unwrap_err();
    assert_eq!(err, RasterError::Undecodable);
    assert_eq!(err.message(), "decoding image from memory");
}

/// A 2x1 TGA of the same two pixels: a format that nothing in its bytes names.
const TGA: [u8; 26] = [
    0, 0, 2, 0, 0, 0, 0, 0, 0, 0, 0, 0, 2, 0, 1, 0, 32, 0x28, 0, 0, 255, 255, 255, 0, 0, 128,
];

#[test]
fn an_extension_names_what_the_bytes_do_not() {
    let want = vec![Rgba8::opaque(255, 0, 0), Rgba8::new(0, 0, 255, 128)];
    for extension in ["tga", "TGA"] {
        let r = Raster::from_file_bytes(&TGA, extension).unwrap();
        assert_eq!((r.width, r.height), (2, 1));
        assert_eq!(r.data, want);
    }
    for extension in ["png", "txt", ""] {
        let err = Raster::from_file_bytes(&TGA, extension).unwrap_err();
        assert_eq!(err, RasterError::Undecodable, "{extension:?}");
    }
    assert_eq!(Raster::from_bytes(&TGA).unwrap_err(), RasterError::Undecodable);
    // What the bytes say of themselves comes first.
    for extension in ["png", "tga", "txt", ""] {
        assert_eq!(Raster::from_file_bytes(&PNG, extension).unwrap().data, want);
    }
}

#[test]
fn rasterizes_svg_at_the_declared_size() {
    let svg = "<svg xmlns=\"http://www.w3.org/2000/svg\" width=\"20\" height=\"12\" \
               viewBox=\"0 0 20 12\"><rect width=\"20\" height=\"12\" fill=\"#ff0000\"/></svg>";
    let r = rasterize_svg(svg, 1, 20, 12).expect("render");
    assert_eq!((r.width, r.height), (20, 12));
    assert_eq!(r.get(10, 6), Rgba8::opaque(255, 0, 0));
}

#[test]
fn supersampling_yields_the_same_output_size() {
    let svg = "<svg xmlns=\"http://www.w3.org/2000/svg\" width=\"20\" height=\"12\" \
               viewBox=\"0 0 20 12\"><circle cx=\"10\" cy=\"6\" r=\"5\" fill=\"#0000ff\"/></svg>";
    let a = rasterize_svg(svg, 1, 20, 12).expect("1x");
    let b = rasterize_svg(svg, 3, 60, 36).expect("3x");
    assert_eq!(b.get(30, 18), Rgba8::opaque(0, 0, 255), "the scale reaches the renderer");
    let alpha: Raster<u32> = Raster {
        width: b.width,
        height: b.height,
        data: b.data.iter().map(|c| c.a as u32).collect(),
    };
    let small = alpha
        .downsample(3, 0, &|x: u32, y: u32| x + y, &|s: u32, n: u64| s / n as u32)
        .expect("a factor of three reduces");
    assert_eq!((small.width, small.height), (a.width, a.height));
    assert_eq!(small.get(10, 6), 255);
    assert_eq!(small.get(0, 0), 0);
}

#[test]
fn bad_svg_and_empty_canvases_are_errors() {
    assert_eq!(rasterize_svg("<svg", 1, 5, 5).unwrap_err(), RasterError::BadSvg);
    assert_eq!(RasterError::BadSvg.message(), "parsing generated SVG");
    let svg = "<svg xmlns=\"http://www.w3.org/2000/svg\" width=\"2\" height=\"2\"/>";
    // A row this long has no canvas; neither has a picture this large.
    for (width, height) in [(u32::MAX / 4, 1), (u32::MAX, u32::MAX)] {
        assert_eq!(
            rasterize_svg(svg, 1, width, height).unwrap_err(),
            RasterError::NoCanvas { width, height }
        );
        assert_eq!(rasterize_svg("<svg", 1, width, height).unwrap_err(), RasterError::BadSvg);
    }
    assert_eq!(rasterize_svg(svg, 1, 0, 3).unwrap().data.len(), 3);
    let none = canvas_raster(7, 0, None).unwrap_err();
    assert_eq!(none.message(), "cannot allocate a 7x0 pixmap");
    assert_eq!(canvas_raster(1, 1, Some(vec![1, 2, 3, 4])).unwrap().data, vec![Rgba8::new(1, 2, 3, 4)]);
    // Zero sides are rounded up before a canvas is asked for.
    let svg = "<svg xmlns=\"http://www.w3.org/2000/svg\" width=\"1\" height=\"1\"/>";
    let r = rasterize_svg(svg, 0, 0, 0).unwrap();
    assert_eq!((r.width, r.height), (1, 1));
}

#[test]
fn downsampling_averages_boxes() {
    let r = grid(4, 4);
    let plus = |a: u32, b: u32| a + b;
    let mean = |s: u32, n: u64| s / n as u32;
    assert!(r.downsample(1, 0, &plus, &mean).is_none());
    let half = r.downsample(2, 0, &plus, &mean).unwrap();
    assert_eq!(half.data, vec![5, 7, 25, 27]);
    // A remainder on the right and below is cut off.
    let odd = grid(5, 5).downsample(2, 0, &plus, &mean).unwrap();
    assert_eq!((odd.width, odd.height), (2, 2));
}

#[test]
fn resampling_covers_the_given_spans() {
    let r = grid(4, 2);
    let span = |lo, hi| Span { lo, hi };
    let out = r.resized(
        &vec![span(0, 2), span(2, 9), span(3, 3)],
        &vec![span(0, 2)],
        0,
        &|a: u32, b: u32| a + b,
        &|s: u32, n: u64| s * 100 + n as u32,
    );
    assert_eq!((out.width, out.height), (3, 1));
    // Past the edge is clamped, and an empty span still covers one column.
    assert_eq!(out.data, vec![2204, 3004, 1602]);
}

#[test]
fn images_that_fit_are_left_alone() {
    let r = grid(4, 2);
    assert_eq!(r.fit_within(4, (9, 9)), None);
    assert_eq!(r.fit_within(0, (9, 9)), None);
    assert_eq!(r.fit_within(2, (2, 1)), Some((2, 1)));
    assert_eq!(r.fit_within(1, (1, 0)), Some((1, 1)));
}

#[test]
fn the_headline_counts_and_ranks() {
    let deltas: Vec<u64> = (0..100).rev().collect();
    assert_eq!(count_matched(&deltas, 9), 10);
    assert_eq!(largest(&deltas), 99);
    assert_eq!(p95(&deltas), 95);
    assert_eq!(p95(&vec![7]), 7);
    let none: Vec<u64> = Vec::new();
    assert_eq!((count_matched(&none, 5), largest(&none), p95(&none)), (0, 0, 0));
}

#[test]
fn matches_grow_with_the_threshold() {
    let deltas = vec![3u64, 0, 9, 4, 4, 1];
    let matched: Vec<usize> = (0..11).map(|t| count_matched(&deltas, t)).collect();
    assert_eq!(matched, vec![1, 2, 2, 3, 5, 5, 5, 5, 5, 6, 6]);
    assert!(p95(&deltas) <= largest(&deltas));
    let alike = vec![0u64; 8];
    assert_eq!((count_matched(&alike, 0), largest(&alike), p95(&alike)), (8, 0, 0));
    // The mean is at most the largest, however large that is.
    assert_eq!(sum(&deltas), 21);
    assert_eq!(sum(&vec![u64::MAX; 3]), 3 * u64::MAX as u128);
    assert_eq!(p95(&vec![u64::MAX, u64::MAX - 1]), u64::MAX);
}

#[test]
fn ideal_svg_is_exact() {
    let scene = Scene {
        width: 30,
        height: 20,
        background: rgb(255, 255, 255),
        items: vec![
            SceneItem {
                shape: SceneShape::Polygon(vec![
                    Point { x: 0, y: 0 },
                    Point { x: 10_000_000_000, y: -500_000_000 },
                ]),
                color: rgb(1, 2, 3),
            },
            SceneItem {
                shape: SceneShape::Circle {
                    centre: Point { x: 80_300_000_000, y: 79_700_000_000 },
                    radius: 52_400_049_999,
                },
                color: rgb(25, 110, 190),
            },
        ],
    };
    assert_eq!(
        scene.to_ideal_svg(),
        "<?xml version=\"1.0\" encoding=\"UTF-8\"?>\n\
         <svg xmlns=\"http://www.w3.org/2000/svg\" width=\"30\" height=\"20\" \
         viewBox=\"0 0 30 20\" shape-rendering=\"geometricPrecision\">\n\
         <rect width=\"30\" height=\"20\" fill=\"#ffffff\"/>\n\
         <path d=\"M0.0000 0.0000L10.0000 -0.5000Z\" fill=\"#010203\"/>\n\
         <circle cx=\"80.3000\" cy=\"79.7000\" r=\"52.4000\" fill=\"#196ebe\"/>\n\
         </svg>\n"
    );
}

#[test]
fn ring_ideal_svg_has_a_hole() {
    let at = |v: i64| v * 1_000_000_000;
    let scene = Scene {
        width: 120,
        height: 120,
        background: rgb(255, 255, 255),
        items: vec![SceneItem {
            shape: SceneShape::Ring {
                centre: Point { x: at(60), y: at(60) },
                outer: at(50),
                inner: at(25),
            },
            color: rgb(40, 90, 160),
        }],
    };
    let svg = scene.to_ideal_svg();
    assert!(svg.contains("M60 60m-50,0a50,50 0 1,0 100,0a50,50 0 1,0 -100,0"), "{svg}");
    let ideal = rasterize_svg(&svg, 1, 120, 120).unwrap();
    // Centre must be background, the band must be the fill.
    let part = |c: Rgba8| [c.r as f32 / 255.0, c.g as f32 / 255.0, c.b as f32 / 255.0];
    let centre = part(ideal.get(60, 60));
    let band = part(ideal.get(60, 22));
    assert!(centre[0] > 0.9 && centre[2] > 0.9, "hole not punched: {:?}", centre);
    assert!(band[2] > 0.5 && band[0] < 0.3, "band not filled: {:?}", band);
}

#[test]
fn an_invisible_background_is_not_painted() {
    let scene =
        Scene { width: 1, height: 1, background: Rgba8::transparent(), items: Vec::new() };
    assert!(!scene.to_ideal_svg().contains("<rect"));
}

// ---- Rendering ----------------------------------------------------------

fn px(v: f64) -> i64 {
    (v * 1e9).round() as i64
}

fn at(x: f64, y: f64) -> Point {
    Point { x: px(x), y: px(y) }
}

fn scene(width: u32, height: u32, background: Rgba8, items: Vec<(SceneShape, Rgba8)>) -> Scene {
    let items = items.into_iter().map(|(shape, color)| SceneItem { shape, color }).collect();
    Scene { width, height, background, items }
}

fn fractions(c: Rgba8) -> [f32; 4] {
    [c.r as f32 / 255.0, c.g as f32 / 255.0, c.b as f32 / 255.0, c.a as f32 / 255.0]
}

fn over(c: [f32; 4], color: Rgba8) -> [f32; 4] {
    let s = fractions(color);
    let a = s[3];
    [
        s[0] * a + c[0] * (1.0 - a),
        s[1] * a + c[1] * (1.0 - a),
        s[2] * a + c[2] * (1.0 - a),
        a + c[3] * (1.0 - a),
    ]
}

fn plus(a: [f32; 4], b: [f32; 4]) -> [f32; 4] {
    [a[0] + b[0], a[1] + b[1], a[2] + b[2], a[3] + b[3]]
}

fn mean(sum: [f32; 4], n: u32) -> [f32; 4] {
    sum.map(|v| v * (1.0 / n as f32))
}

fn render(scene: &Scene, ss: u32) -> Raster<[f32; 4]> {
    scene.render(&over, &plus, &mean, fractions(scene.background), [0.0; 4], ss)
}

/// The point at an angle on a circle.
fn on_circle(centre: Point, radius: i64, turn: Turn) -> Point {
    let t = turn.part as f64 / turn.of as f64 * std::f64::consts::TAU + turn.plus as f64 / 1e9;
    let r = radius as f64 / 1e9;
    at(centre.x as f64 / 1e9 + r * t.cos(), centre.y as f64 / 1e9 + r * t.sin())
}

fn star_of(centre: Point, outer: f64, inner: f64, points: u32) -> SceneShape {
    star(&on_circle, centre, px(outer), px(inner), points)
}

#[test]
fn supersampling_produces_real_antialiasing() {
    let scene = scene(
        32,
        32,
        rgb(0, 0, 0),
        vec![(
            SceneShape::Circle { centre: at(16.0, 16.0), radius: px(10.0) },
            rgb(255, 255, 255),
        )],
    );
    let aa = render(&scene, 8);
    // Somewhere on the rim there must be partially covered pixels.
    let partial = aa.data.iter().filter(|c| c[0] > 0.05 && c[0] < 0.95).count();
    assert!(partial > 10, "only {partial} partial pixels");

    let hard = scene.render_hard(&over, &plus, &mean, [0.0, 0.0, 0.0, 1.0], [0.0; 4]);
    let partial_hard = hard.data.iter().filter(|c| c[0] > 0.05 && c[0] < 0.95).count();
    assert_eq!(partial_hard, 0, "centre sampling must not anti-alias");
}

#[test]
fn transparent_background_stays_transparent() {
    let all = suite(&on_circle);
    let t = all.iter().find(|t| t.name == "alpha").unwrap();
    let Picture::Scene { scene, .. } = &t.picture else { panic!("not a scene") };
    let img = render(scene, 8);
    assert!(img.get(2, 2)[3] < 0.01, "corner should be transparent");
    assert!(img.data.iter().any(|c| c[3] < 0.999));
    // The pentagon covers the disc where they meet.
    let near = |c: [f32; 4], want: Rgba8| {
        let f = fractions(want);
        (0..4).all(|k| (c[k] - f[k]).abs() < 1e-4)
    };
    assert!(near(img.get(80, 75), rgb(40, 150, 180)));
    assert!(near(img.get(40, 70), rgb(200, 50, 90)));
}

#[test]
fn ring_has_a_hole() {
    let r = SceneShape::Ring { centre: at(0.0, 0.0), outer: px(10.0), inner: px(5.0) };
    assert!(r.contains(at(7.0, 0.0)));
    assert!(!r.contains(at(2.0, 0.0)));
    assert!(!r.contains(at(12.0, 0.0)));
    // Both edges belong to it.
    assert!(r.contains(at(5.0, 0.0)) && r.contains(at(0.0, -10.0)));
}

#[test]
fn polygon_containment_handles_concavity() {
    let s = star_of(at(0.0, 0.0), 10.0, 4.0, 5);
    assert!(s.contains(at(0.0, 0.0)));
    assert!(!s.contains(at(9.0, 9.0)));
}

#[test]
fn samples_divide_a_pixel_evenly() {
    // A rectangle that covers the left quarter of a single pixel.
    let quarter = SceneShape::Polygon(vec![at(0.0, 0.0), at(0.25, 0.0), at(0.25, 1.0), at(0.0, 1.0)]);
    let s = scene(1, 1, rgb(0, 0, 0), vec![(quarter, rgb(255, 255, 255))]);
    assert_eq!(render(&s, 4).get(0, 0)[0], 0.25);
    assert_eq!(render(&s, 2).get(0, 0)[0], 0.0, "no sample lies that far left");
    assert_eq!(render(&s, 0).get(0, 0), render(&s, 1).get(0, 0));
}

/// CIELAB.
fn lab(c: [f32; 4]) -> [f32; 3] {
    let linear = |v: f32| {
        if v <= 0.040_45 {
            v / 12.92
        } else {
            ((v + 0.055) / 1.055).powf(2.4)
        }
    };
    let (r, g, b) = (linear(c[0]), linear(c[1]), linear(c[2]));
    let f = |t: f32| if t > 0.008_856 { t.cbrt() } else { 7.787 * t + 4.0 / 29.0 };
    let x = f((0.412_456_4 * r + 0.357_576_1 * g + 0.180_437_5 * b) / 0.950_47);
    let y = f(0.212_672_9 * r + 0.715_152_2 * g + 0.072_175_0 * b);
    let z = f((0.019_333_9 * r + 0.119_192_0 * g + 0.950_304_1 * b) / 1.088_83);
    [116.0 * y - 16.0, 500.0 * (x - y), 200.0 * (y - z)]
}

#[test]
fn ideal_svg_matches_the_rendered_scene() {
    let circle = scene(
        160,
        160,
        rgb(250, 250, 245),
        vec![(
            SceneShape::Circle { centre: at(80.3, 79.7), radius: px(52.4) },
            rgb(25, 110, 190),
        )],
    );
    let slants = scene(
        180,
        140,
        rgb(255, 255, 255),
        vec![
            (
                SceneShape::Polygon(vec![
                    at(10.0, 12.3),
                    at(170.0, 40.7),
                    at(170.0, 58.1),
                    at(10.0, 29.9),
                ]),
                rgb(40, 40, 40),
            ),
            (
                SceneShape::Polygon(vec![at(90.0, 72.5), at(170.0, 118.5), at(110.0, 132.0)]),
                rgb(20, 140, 90),
            ),
        ],
    );
    let star = scene(
        160,
        160,
        rgb(255, 255, 255),
        vec![(star_of(at(80.0, 80.0), 66.0, 27.0, 7), rgb(230, 160, 20))],
    );
    for (name, scene) in [("circle", circle), ("slants", slants), ("star", star)] {
        let rendered = render(&scene, 16);
        let ideal = rasterize_svg(&scene.to_ideal_svg(), 1, scene.width, scene.height).unwrap();
        assert_eq!(
            (rendered.width, rendered.height),
            (ideal.width, ideal.height),
            "{name}"
        );
        // Colour differences in thousandths.
        let apart: Vec<u64> = rendered
            .data
            .iter()
            .zip(&ideal.data)
            .map(|(a, b)| {
                let (p, q) = (lab(*a), lab(fractions(*b)));
                let d: f32 = (0..3).map(|k| (p[k] - q[k]) * (p[k] - q[k])).sum();
                (d.sqrt() * 1000.0) as u64
            })
            .collect();
        let match_pct = count_matched(&apart, 2300) as f64 / apart.len() as f64 * 100.0;
        assert!(
            match_pct > 95.0,
            "{name}: the ideal SVG does not describe the same scene ({match_pct:.2}%)"
        );
    }
}

#[test]
fn suite_builds_and_is_well_formed() {
    let s = suite(&on_circle);
    assert!(s.len() >= 10);
    for t in &s {
        let image = match &t.picture {
            Picture::Scene { scene, supersample } | Picture::Weathered { scene, supersample } => {
                render(scene, *supersample)
            }
            Picture::Blocks { cells, across, side, colors } => {
                let mut img = Raster::new(across * side, across * side, [0.0; 4]);
                for y in 0..img.height {
                    for x in 0..img.width {
                        let c = cells[((y / side) * across + x / side) as usize];
                        assert!(c < *colors);
                        img.set(x, y, [c as f32 / *colors as f32; 4]);
                    }
                }
                assert_eq!((img.width, cells.len()), (128, 256));
                img
            }
            Picture::Gradient { width, height } => {
                let mut img = Raster::new(*width, *height, [0.0; 4]);
                for y in 0..*height {
                    for x in 0..*width {
                        let fx = x as f32 / (width - 1) as f32;
                        let fy = y as f32 / (height - 1) as f32;
                        img.set(x, y, [0.15 + 0.7 * fx, 0.25 + 0.5 * fy, 0.85 - 0.5 * fx, 1.0]);
                    }
                }
                img
            }
        };
        assert!(image.width > 0 && image.height > 0, "{}", t.name);
        assert_eq!(image.data.len(), (image.width * image.height) as usize, "{}", t.name);
        for c in &image.data {
            for v in c {
                assert!(v.is_finite() && (0.0..=1.0).contains(v), "{}", t.name);
            }
        }
    }
    let names: Vec<&str> = s.iter().map(|t| t.name).collect();
    assert_eq!(
        names,
        [
            "hard-rects",
            "aa-circle",
            "slants",
            "junctions",
            "star",
            "rings",
            "logo",
            "pixel-art",
            "noisy-shapes",
            "alpha",
            "gradient"
        ]
    );
}

#[test]
fn regular_polygons_divide_the_circle() {
    let square = regular_polygon(&on_circle, at(10.0, 10.0), px(5.0), 4, 0);
    let SceneShape::Polygon(pts) = &square else { panic!("not a polygon") };
    assert_eq!(*pts, vec![at(15.0, 10.0), at(10.0, 15.0), at(5.0, 10.0), at(10.0, 5.0)]);
    // The first corner of a star points straight up.
    let SceneShape::Polygon(pts) = star_of(at(0.0, 0.0), 10.0, 4.0, 5) else {
        panic!("not a polygon")
    };
    assert_eq!((pts.len(), pts[0]), (10, at(0.0, -10.0)));
}
