#![allow(dead_code)]
//! Palette extraction, with the colour arithmetic that it asks for.

use vectify::cluster::{group_sums, kmeans, median_cut, otsu_split, AxisKeys};
use vectify::color::Rgba8;
use vectify::config::{PaletteMethod, SegmentConfig, SegmentMode};
use vectify::filter::{self, Around};
use vectify::palette::{self, ClusterCalls, ToneCalls};
use vectify::quantize::{sample_pixels, Rng};
use vectify::centres;
use vectify::twotone;

type Raster = vectify::raster::Raster<[f32; 4]>;

fn as_float(b: i64) -> f64 {
    b as f64 / 1e9
}

fn nearest(pal: &Palette, lab: Lab) -> usize {
    pal.nearest(&|a: Lab, b: Lab| a.dist_sq(b).to_bits(), lab)
}

/// A colour as fractions.
fn to_f32(c: Rgba8) -> [f32; 4] {
    [
        c.r as f32 / 255.0,
        c.g as f32 / 255.0,
        c.b as f32 / 255.0,
        c.a as f32 / 255.0,
    ]
}

/// The nearest 8-bit colour.
fn from_f32(c: [f32; 4]) -> Rgba8 {
    let byte = |v: f32| (v.clamp(0.0, 1.0) * 255.0).round() as u8;
    Rgba8::new(byte(c[0]), byte(c[1]), byte(c[2]), byte(c[3]))
}

fn srgb_to_linear(c: f32) -> f32 {
    if c <= 0.040_45 {
        c / 12.92
    } else {
        ((c + 0.055) / 1.055).powf(2.4)
    }
}

fn linear_to_srgb(c: f32) -> f32 {
    if c <= 0.003_130_8 {
        c * 12.92
    } else {
        1.055 * c.powf(1.0 / 2.4) - 0.055
    }
}

/// CIELAB under a D65 white point.
#[derive(Clone, Copy, Debug, Default, PartialEq)]
struct Lab {
    l: f32,
    a: f32,
    b: f32,
}

impl Lab {
    /// Squared Euclidean distance in Lab. Cheap, and good enough as the inner
    /// loop of k-means clustering; CIEDE2000 is reserved for scoring.
    fn dist_sq(self, o: Lab) -> f32 {
        let dl = self.l - o.l;
        let da = self.a - o.a;
        let db = self.b - o.b;
        dl * dl + da * da + db * db
    }
}

/// Convert gamma-encoded sRGB in 0..1 to CIELAB.
fn srgb_to_lab(c: [f32; 3]) -> Lab {
    let r = srgb_to_linear(c[0]);
    let g = srgb_to_linear(c[1]);
    let b = srgb_to_linear(c[2]);

    // sRGB -> XYZ (D65), then normalise by the white point.
    let x = (0.412_456_4 * r + 0.357_576_1 * g + 0.180_437_5 * b) / 0.950_47;
    let y = 0.212_672_9 * r + 0.715_152_2 * g + 0.072_175_0 * b;
    let z = (0.019_333_9 * r + 0.119_192_0 * g + 0.950_304_1 * b) / 1.088_83;

    fn f(t: f32) -> f32 {
        const D: f32 = 6.0 / 29.0;
        if t > D * D * D {
            t.cbrt()
        } else {
            t / (3.0 * D * D) + 4.0 / 29.0
        }
    }

    let fx = f(x);
    let fy = f(y);
    let fz = f(z);
    Lab {
        l: 116.0 * fy - 16.0,
        a: 500.0 * (fx - fy),
        b: 200.0 * (fy - fz),
    }
}

fn lab_to_srgb(lab: Lab) -> [f32; 3] {
    let fy = (lab.l + 16.0) / 116.0;
    let fx = fy + lab.a / 500.0;
    let fz = fy - lab.b / 200.0;

    fn finv(t: f32) -> f32 {
        const D: f32 = 6.0 / 29.0;
        if t > D {
            t * t * t
        } else {
            3.0 * D * D * (t - 4.0 / 29.0)
        }
    }

    let x = finv(fx) * 0.950_47;
    let y = finv(fy);
    let z = finv(fz) * 1.088_83;

    let r = 3.240_454_2 * x - 1.537_138_5 * y - 0.498_531_4 * z;
    let g = -0.969_266_0 * x + 1.876_010_8 * y + 0.041_556_0 * z;
    let b = 0.055_643_4 * x - 0.204_025_9 * y + 1.057_225_2 * z;

    [
        linear_to_srgb(r).clamp(0.0, 1.0),
        linear_to_srgb(g).clamp(0.0, 1.0),
        linear_to_srgb(b).clamp(0.0, 1.0),
    ]
}

/// Cache of Lab values for an 8-bit RGB palette, so clustering and scoring do
/// not redo the cube-root heavy conversion per pixel.
struct LabCache {
    entries: Vec<Lab>,
}

impl LabCache {
    /// Builds a 32x32x32 lookup over the RGB cube. The quantisation error this
    /// introduces (about 4 levels per channel, trilinearly interpolated) is far
    /// below the deltaE thresholds we test against.
    fn new() -> Self {
        let mut entries = Vec::with_capacity(32 * 32 * 32);
        for r in 0..32 {
            for g in 0..32 {
                for b in 0..32 {
                    entries.push(srgb_to_lab([
                        r as f32 / 31.0,
                        g as f32 / 31.0,
                        b as f32 / 31.0,
                    ]));
                }
            }
        }
        LabCache { entries }
    }

    fn lookup(&self, c: [f32; 3]) -> Lab {
        let ri = (c[0].clamp(0.0, 1.0) * 31.0).round() as usize;
        let gi = (c[1].clamp(0.0, 1.0) * 31.0).round() as usize;
        let bi = (c[2].clamp(0.0, 1.0) * 31.0).round() as usize;
        self.entries[(ri * 32 + gi) * 32 + bi]
    }
}

type Palette = vectify::quantize::Palette<Lab>;

/// A random number as a fraction, below 1.
fn unit(draw: u64) -> f32 {
    ((draw >> 40) as f32) / ((1u32 << 24) as f32)
}

/// An integer that orders like the float.
fn order_key(v: f32) -> i64 {
    // Zero has two representations; both are the same colour.
    let bits = if v == 0.0 { 0 } else { v.to_bits() as i32 };
    (if bits < 0 { i32::MIN ^ !bits } else { bits }) as i64
}

/// The float that [`order_key`] made a key of.
fn from_key(key: i64) -> f32 {
    let k = key as i32;
    f32::from_bits((if k < 0 { i32::MIN ^ !k } else { k }) as u32)
}

/// Weight in 0..1 measuring how much a pixel should influence palette selection.
/// Flat interiors score near 1, anti-aliased edges near 0.
fn flatness(a: Around<[f32; 4]>) -> f32 {
    // Sobel-style gradient magnitude over the three colour channels.
    let mut grad = 0.0f32;
    for ch in 0..3 {
        let gx = -a.nw[ch] - 2.0 * a.w[ch] - a.sw[ch] + a.ne[ch] + 2.0 * a.e[ch] + a.se[ch];
        let gy = -a.nw[ch] - 2.0 * a.n[ch] - a.ne[ch] + a.sw[ch] + 2.0 * a.s[ch] + a.se[ch];
        grad = grad.max((gx * gx + gy * gy).sqrt() * 0.25);
    }
    // A gradient of ~0.15 per pixel already means a visible edge.
    (-(grad / 0.12).powi(2)).exp()
}

fn luma(c: [f32; 4]) -> f32 {
    0.2126 * c[0] + 0.7152 * c[1] + 0.0722 * c[2]
}

/// A weighted sum of Lab colours.
#[derive(Clone, Copy, Default)]
struct LabSum {
    l: f64,
    a: f64,
    b: f64,
    w: f64,
}
impl LabSum {
    fn plus(self, lab: Lab, w: f32) -> LabSum {
        let w = w as f64;
        LabSum {
            l: self.l + lab.l as f64 * w,
            a: self.a + lab.a as f64 * w,
            b: self.b + lab.b as f64 * w,
            w: self.w + w,
        }
    }

    fn mean(self) -> Option<Lab> {
        (self.w > 1e-9).then(|| Lab {
            l: (self.l / self.w) as f32,
            a: (self.a / self.w) as f32,
            b: (self.b / self.w) as f32,
        })
    }
}

/// What splitting an image into two tones asks of the numbers.
fn tone_calls(
    cache: &LabCache,
) -> ToneCalls<
    [f64; 4],
    impl Fn([f32; 4]) -> Option<u8>,
    impl Fn(u64, u64, u64, u64) -> u64,
    impl Fn(i64) -> f64,
    impl Fn(Option<usize>) -> f64,
    impl Fn(f64, [f32; 4]) -> bool,
    impl Fn([f64; 4], [f32; 4]) -> [f64; 4],
    impl Fn([f64; 4], bool) -> (Rgba8, Lab) + '_,
> {
    ToneCalls {
        // Weight by alpha so a transparent border does not drag the split.
        bin: |c: [f32; 4]| {
            (c[3] >= 0.5).then(|| (luma(c).clamp(0.0, 1.0) * 255.0).round() as u8)
        },
        variance: |w_b: u64, w_f: u64, sum_b: u64, sum_f: u64| {
            let m_b = sum_b as f64 / w_b as f64;
            let m_f = sum_f as f64 / w_f as f64;
            (w_b as f64 * w_f as f64 * (m_b - m_f) * (m_b - m_f)).to_bits()
        },
        given: as_float,
        found: |split: Option<usize>| split.map_or(0.5, |t| t as f64 / 255.0),
        light: |level: f64, c: [f32; 4]| luma(c) as f64 > level,
        plus: |sum: [f64; 4], c: [f32; 4]| {
            [sum[0] + c[0] as f64, sum[1] + c[1] as f64, sum[2] + c[2] as f64, sum[3] + 1.0]
        },
        finish: move |sum: [f64; 4], light: bool| {
            let c = if sum[3] < 1.0 {
                [if light { 1.0 } else { 0.0 }; 3]
            } else {
                [(sum[0] / sum[3]) as f32, (sum[1] / sum[3]) as f32, (sum[2] / sum[3]) as f32]
            };
            (from_f32([c[0], c[1], c[2], 1.0]), cache.lookup(c))
        },
        zero: [0.0; 4],
    }
}

/// What clustering asks of the numbers. A point is a colour with its weight.
fn cluster_calls() -> ClusterCalls<
    f32,
    f64,
    LabSum,
    impl Fn(Around<[f32; 4]>) -> f32,
    impl Fn([f32; 4], f32) -> (Lab, f32),
    impl Fn((Lab, f32)) -> Lab,
    impl Fn((Lab, f32)) -> AxisKeys,
    impl Fn((Lab, f32), Lab) -> u32,
    impl Fn(f64, u32, (Lab, f32)) -> f64,
    impl Fn(f64) -> bool,
    impl Fn(f64, u64) -> f64,
    impl Fn(f64, u32, (Lab, f32)) -> f64,
    impl Fn(f64) -> bool,
    impl Fn(LabSum, (Lab, f32)) -> LabSum,
    impl Fn(LabSum) -> Option<Lab>,
    impl Fn(usize, AxisKeys, AxisKeys) -> u32,
    impl Fn(LabSum) -> Lab,
    impl Fn(Lab) -> Rgba8,
> {
    let part = |gap: u32, p: (Lab, f32)| f32::from_bits(gap) as f64 * p.1 as f64;
    ClusterCalls {
        flat: flatness,
        full: 1.0,
        point: |c: [f32; 4], w: f32| (srgb_to_lab([c[0], c[1], c[2]]), w.max(1e-4)),
        lab: |p: (Lab, f32)| p.0,
        axes: |p: (Lab, f32)| AxisKeys {
            l: order_key(p.0.l),
            a: order_key(p.0.a),
            b: order_key(p.0.b),
        },
        // The bits of a non-negative float order like it.
        dist: |p: (Lab, f32), c: Lab| p.0.dist_sq(c).to_bits(),
        weigh: move |mass: f64, gap: u32, p: (Lab, f32)| mass + part(gap, p),
        heavy: |mass: f64| mass > 1e-9,
        aim: |mass: f64, draw: u64| unit(draw) as f64 * mass,
        spend: move |left: f64, gap: u32, p: (Lab, f32)| left - part(gap, p),
        spent: |left: f64| left <= 0.0,
        none: 0.0,
        plus: |sum: LabSum, p: (Lab, f32)| sum.plus(p.0, p.1),
        zero: LabSum::default(),
        mean: |sum: LabSum| sum.mean(),
        gap: |axis: usize, lo: AxisKeys, hi: AxisKeys| {
            let on = |k: AxisKeys| from_key([k.l, k.a, k.b][axis]);
            (on(hi) - on(lo)).max(0.0).to_bits()
        },
        settle: |sum: LabSum| sum.mean().unwrap_or_default(),
        floor: 1e-4f32.to_bits(),
        color: |lab: Lab| {
            let rgb = lab_to_srgb(lab);
            from_f32([rgb[0], rgb[1], rgb[2], 1.0])
        },
    }
}

/// Weights in 0..1, one per pixel.
fn flatness_weights(img: &Raster) -> Vec<f32> {
    filter::flatness_weights(&flatness, img, 1.0)
}

/// Otsu's method on the luminance histogram, returning a threshold in 0..1.
fn otsu_threshold(img: &Raster) -> f64 {
    let cache = LabCache::new();
    let t = tone_calls(&cache);
    (t.found)(twotone::otsu_threshold(&t.bin, &t.variance, &img.data))
}

/// Build the palette for an image according to the segmentation config.
fn build_palette(img: &Raster, cfg: &SegmentConfig, cache: &LabCache) -> Palette {
    let alpha = as_float(cfg.alpha_threshold) as f32;
    // Exact Lab, not the 5-bit lookup cache: a key is a single colour the user
    // typed, and the cache's quantisation would move the tolerance circle by a
    // couple of units.
    let tolerance_sq = (as_float(cfg.transparent_tolerance) as f32).max(0.0).powi(2);
    palette::build_palette(
        &|c: [f32; 4]| c[3] <= alpha,
        &tone_calls(cache),
        &cluster_calls(),
        &|k: Rgba8| {
            let c = to_f32(k);
            srgb_to_lab([c[0], c[1], c[2]])
        },
        &|entry: Lab, key: Lab| entry.dist_sq(key) <= tolerance_sq,
        img,
        cfg,
        Lab::default(),
    )
}

fn two_tone(width: u32, height: u32) -> Raster {
    let mut r = Raster::new(width, height, [0.0; 4]);
    for y in 0..height {
        for x in 0..width {
            let c = if x < width / 2 {
                [0.05, 0.05, 0.05, 1.0]
            } else {
                [0.95, 0.95, 0.95, 1.0]
            };
            r.set(x, y, c);
        }
    }
    r
}

#[test]
fn otsu_splits_a_bimodal_image() {
    let t = otsu_threshold(&two_tone(32, 32));
    assert!(t > 0.05 && t < 0.95, "threshold {t} did not land between modes");
}

#[test]
fn flatness_downweights_edges() {
    let img = two_tone(16, 16);
    let w = flatness_weights(&img);
    let interior = w[(8 * 16 + 2) as usize];
    let on_edge = w[(8 * 16 + 8) as usize];
    assert!(interior > 0.9, "interior weight {interior}");
    assert!(on_edge < 0.2, "edge weight {on_edge} should be suppressed");
}

#[test]
fn kmeans_recovers_planted_colors() {
    // Three well-separated colours, plus a band of blends between two of
    // them. With edge weighting on, the blends must not claim a slot.
    let mut img = Raster::new(60, 20, [0.0; 4]);
    for y in 0..20 {
        for x in 0..60 {
            let c = match x / 20 {
                0 => [0.9, 0.1, 0.1, 1.0],
                1 => [0.1, 0.8, 0.2, 1.0],
                _ => [0.15, 0.2, 0.9, 1.0],
            };
            img.set(x, y, c);
        }
    }
    let cache = LabCache::new();
    let cfg = SegmentConfig {
        mode: SegmentMode::Palette,
        colors: 3,
        ..Default::default()
    };
    let pal = build_palette(&img, &cfg, &cache);
    assert_eq!(pal.len(), 3);
    for want in [[0.9, 0.1, 0.1], [0.1, 0.8, 0.2], [0.15, 0.2, 0.9]] {
        let lab = srgb_to_lab(want);
        let idx = nearest(&pal, lab);
        let d = pal.entries[idx].lab.dist_sq(lab).sqrt();
        assert!(d < 12.0, "planted colour {want:?} not recovered, dist {d}");
    }
}

#[test]
fn median_cut_also_recovers_colors() {
    let mut img = Raster::new(40, 10, [0.0; 4]);
    for y in 0..10 {
        for x in 0..40 {
            let c = if x < 20 {
                [0.9, 0.2, 0.1, 1.0]
            } else {
                [0.1, 0.3, 0.85, 1.0]
            };
            img.set(x, y, c);
        }
    }
    let cache = LabCache::new();
    let cfg = SegmentConfig {
        mode: SegmentMode::Palette,
        palette_method: PaletteMethod::MedianCut,
        colors: 2,
        ..Default::default()
    };
    let pal = build_palette(&img, &cfg, &cache);
    assert_eq!(pal.len(), 2);
}

/// Three flat bands: white, red, blue.
fn three_bands() -> Raster {
    let mut img = Raster::new(60, 20, [0.0; 4]);
    for y in 0..20 {
        for x in 0..60 {
            let c = match x / 20 {
                0 => [1.0, 1.0, 1.0, 1.0],
                1 => [0.9, 0.1, 0.1, 1.0],
                _ => [0.15, 0.2, 0.9, 1.0],
            };
            img.set(x, y, c);
        }
    }
    img
}

fn keyed(colors: &[Rgba8]) -> SegmentConfig {
    SegmentConfig {
        mode: SegmentMode::Palette,
        colors: 3,
        transparent_colors: colors.to_vec(),
        ..Default::default()
    }
}

fn transparent_count(pal: &Palette) -> usize {
    pal.entries.iter().filter(|e| e.transparent).count()
}

#[test]
fn a_keyed_colour_flags_the_matching_entry_only() {
    let cache = LabCache::new();
    let pal = build_palette(&three_bands(), &keyed(&[Rgba8::opaque(255, 255, 255)]), &cache);
    assert_eq!(pal.len(), 3, "a match must not add an entry");
    assert_eq!(transparent_count(&pal), 1);
    let white = nearest(&pal, srgb_to_lab([1.0, 1.0, 1.0]));
    assert!(pal.is_transparent(white));
}

#[test]
fn the_tolerance_is_a_radius_not_an_equality() {
    let cache = LabCache::new();
    // Off-white by a few levels: well inside the default radius.
    let near = build_palette(&three_bands(), &keyed(&[Rgba8::opaque(248, 250, 247)]), &cache);
    assert_eq!(near.len(), 3);
    assert_eq!(transparent_count(&near), 1, "a near-white key should still find white");

    // A zero radius wants an exact colour, which a clustered centre is
    // unlikely to hit; the key is then pinned as its own entry instead.
    let mut cfg = keyed(&[Rgba8::opaque(248, 250, 247)]);
    cfg.transparent_tolerance = 0;
    let strict = build_palette(&three_bands(), &cfg, &cache);
    assert_eq!(strict.len(), 4);
}

#[test]
fn a_key_no_entry_is_near_is_pinned_rather_than_ignored() {
    let cache = LabCache::new();
    let green = Rgba8::opaque(0, 200, 0);
    let pal = build_palette(&three_bands(), &keyed(&[green]), &cache);
    assert_eq!(pal.len(), 4, "the unmatched key should join the palette");
    let pinned = pal.entries.last().unwrap();
    assert!(pinned.transparent);
    assert_eq!(pinned.color, green);
    // The image has no green, so the three real colours stay painted.
    assert_eq!(transparent_count(&pal), 1);
}

#[test]
fn several_keys_can_each_claim_an_entry() {
    let cache = LabCache::new();
    let pal = build_palette(
        &three_bands(),
        &keyed(&[Rgba8::opaque(255, 255, 255), Rgba8::opaque(38, 51, 230)]),
        &cache,
    );
    assert_eq!(pal.len(), 3);
    assert_eq!(transparent_count(&pal), 2);
    let red = nearest(&pal, srgb_to_lab([0.9, 0.1, 0.1]));
    assert!(!pal.is_transparent(red), "the unkeyed colour stays painted");
}

#[test]
fn keying_works_in_binary_mode_too() {
    // Line art: black strokes on white paper. Keying the paper out is the
    // most common use, and binary mode builds its palette a different way.
    let mut img = Raster::new(20, 20, [0.0; 4]);
    for y in 0..20 {
        for x in 0..20 {
            let ink = (8..12).contains(&x);
            let v = if ink { 0.05 } else { 0.97 };
            img.set(x, y, [v, v, v, 1.0]);
        }
    }
    let cache = LabCache::new();
    let cfg = SegmentConfig {
        mode: SegmentMode::Binary,
        transparent_colors: vec![Rgba8::opaque(255, 255, 255)],
        ..Default::default()
    };
    let pal = build_palette(&img, &cfg, &cache);
    assert_eq!(pal.len(), 2);
    assert_eq!(transparent_count(&pal), 1);
    let ink = nearest(&pal, srgb_to_lab([0.05; 3]));
    assert!(!pal.is_transparent(ink));
}

#[test]
fn no_keys_leaves_everything_opaque() {
    let cache = LabCache::new();
    let pal = build_palette(&three_bands(), &keyed(&[]), &cache);
    assert_eq!(transparent_count(&pal), 0);
    assert_eq!(pal.alpha_slot, None);
}

#[test]
fn a_palette_has_at_most_the_entries_asked_for() {
    let cache = LabCache::new();
    for method in [PaletteMethod::KMeans, PaletteMethod::MedianCut] {
        for colors in [1, 2, 3, 9] {
            let cfg = SegmentConfig { palette_method: method, colors, ..keyed(&[]) };
            let pal = build_palette(&three_bands(), &cfg, &cache);
            assert!(0 < pal.len() && pal.len() <= colors.max(2), "{method:?} {colors}");
            assert!(pal.entries.iter().all(|e| e.color.a == 255));
        }
    }
    // Two tones whatever is asked for, even of an image with one.
    let flat = Raster::new(6, 6, [0.5, 0.5, 0.5, 1.0]);
    for colors in [1, 7] {
        let cfg = SegmentConfig { mode: SegmentMode::Binary, colors, ..Default::default() };
        let pal = build_palette(&flat, &cfg, &cache);
        assert_eq!(pal.len(), 2);
        assert!(pal.entries.iter().all(|e| e.color.a == 255));
    }
}

#[test]
fn clear_pixels_get_the_last_entry() {
    let mut img = three_bands();
    img.set(3, 3, [0.2, 0.4, 0.6, 0.0]);
    let cache = LabCache::new();
    let pal = build_palette(&img, &keyed(&[]), &cache);
    assert_eq!(pal.alpha_slot, Some(pal.len() - 1));
    assert_eq!(pal.len(), 4);
    assert!(pal.entries[..3].iter().all(|e| !e.transparent && e.color.a == 255));
    assert_eq!(pal.entries[3].color.a, 0);
}

#[test]
fn otsu_takes_the_first_of_equal_splits() {
    let mut hist = vec![0u64; 256];
    hist[10] = 5;
    hist[200] = 5;
    let apart = |w_b: u64, w_f: u64, sum_b: u64, sum_f: u64| (sum_f / w_f).abs_diff(sum_b / w_b);
    assert_eq!(otsu_split(&hist, &apart), Some(10));
    assert_eq!(otsu_split(&vec![0; 256], &apart), None);
    let mut single = vec![0u64; 256];
    single[7] = 3;
    assert_eq!(otsu_split(&single, &apart), Some(128), "nothing to split");
}

#[test]
fn median_cut_halves_the_widest_box() {
    let on = |v: [i64; 6]| -> Vec<AxisKeys> {
        v.iter().map(|&l| AxisKeys { l, a: 0, b: 0 }).collect()
    };
    let keys = on([50, 0, 1, 52, 2, 51]);
    let gap = |axis: usize, lo: AxisKeys, hi: AxisKeys| {
        if axis == 0 { (hi.l - lo.l) as u32 } else { 0 }
    };
    assert_eq!(median_cut(&keys, 2, 1, &gap), vec![vec![1, 2, 4], vec![0, 5, 3]]);
    // The floor stops the cutting once nothing spreads that far.
    assert_eq!(median_cut(&keys, 9, 10, &gap).len(), 2);
    // Every point is in exactly one box.
    let mut all: Vec<usize> = median_cut(&keys, 9, 1, &gap).concat();
    all.sort();
    assert_eq!(all, vec![0, 1, 2, 3, 4, 5]);
    assert_eq!(median_cut(&keys, 0, 1, &gap).len(), 1);
    assert!(median_cut(&Vec::new(), 3, 1, &gap).is_empty());
}

#[test]
fn kmeans_settles_on_its_clusters() {
    let points = vec![0i64, 1, 2, 100, 101, 102];
    let dist = |p: i64, c: i64| (p - c).unsigned_abs() as u32;
    let plus = |s: (i64, i64), p: i64| (s.0 + p, s.1 + 1);
    let finish = |s: (i64, i64)| (s.1 > 0).then(|| s.0 / s.1);
    assert_eq!(kmeans(&points, vec![0, 1], 20, &dist, (0, 0), &plus, &finish), vec![1, 101]);
    assert_eq!(kmeans(&points, vec![0, 1], 0, &dist, (0, 0), &plus, &finish), vec![0, 1], "no rounds");
    // A centre that nothing is near stays where it is.
    assert_eq!(kmeans(&points, vec![50, 5000], 20, &dist, (0, 0), &plus, &finish), vec![51, 5000]);
}

#[test]
fn seeds_are_spread_out() {
    let seeds = |points: &[i64], k: usize, seed: u64| {
        let labs: Vec<i64> = points.to_vec();
        let mut rng = Rng::new(seed);
        let found = centres::seed_centres(
            &|p: i64, c: i64| ((p - c) * (p - c)) as u32,
            &|mass: u64, gap: u32, _: i64| mass + gap as u64,
            &|mass: u64| mass > 0,
            &|mass: u64, draw: u64| draw % mass + 1,
            &|left: u64, gap: u32, _: i64| left.saturating_sub(gap as u64),
            &|left: u64| left == 0,
            0,
            &labs,
            &labs,
            k,
            &mut rng,
        );
        (found, rng.next_u64())
    };
    for seed in 0..20 {
        // Three tight groups far apart: one seed falls into each.
        let (found, _) = seeds(&[0, 1, 5000, 5001, 10000, 10001], 3, seed);
        let mut groups: Vec<usize> = found.iter().map(|i| i / 2).collect();
        groups.sort();
        assert_eq!(groups, vec![0, 1, 2], "seed {seed}");
        // Once every point is a centre there is nothing left to choose from, and
        // nothing more is drawn.
        let (found, after) = seeds(&[7, 7, 7], 3, seed);
        assert_eq!(found.len(), 1);
        let mut rng = Rng::new(seed);
        rng.below(3);
        assert_eq!(after, rng.next_u64());
    }
    // A centre is chosen even where none is asked for.
    assert_eq!(seeds(&[1, 2], 0, 3).0.len(), 1);
}

#[test]
fn sums_are_kept_per_group() {
    let points = vec![0u32, 1, 2, 3];
    let sums = group_sums(&points, &vec![1, 0, 1, 1], 3, 0u32, &|s: u32, p: u32| 10 * s + p);
    assert_eq!(sums, vec![1, 23, 0]);
}

#[test]
fn sampling_strides_over_opaque_pixels() {
    let mut rng = Rng::new(1);
    let opaque: Vec<bool> = (0..100).map(|i| i % 2 == 0).collect();
    let picked = sample_pixels(&opaque, 1000, &mut rng);
    assert_eq!(picked, (0..100).step_by(2).collect::<Vec<usize>>());
    let few = sample_pixels(&vec![true; 100], 10, &mut rng);
    assert_eq!(few.len(), 10);
    assert!(few.windows(2).all(|w| w[1] - w[0] == 10));
    // Nothing opaque: everything counts.
    assert_eq!(sample_pixels(&vec![false; 3], 10, &mut rng), vec![0, 1, 2]);
}
