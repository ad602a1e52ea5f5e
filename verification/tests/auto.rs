use std::cmp::Ordering;

use vectify::auto::{Outcome, Plan, Search, Stage};
use vectify::color::Rgba8;
use vectify::config::{Preset, PaletteMethod, SegmentMode, VectorFormat};
use vectify::profile::{classify, count_unique, derive_point_budget, profile, ImageProfile};
use vectify::quantize::Rng;
use vectify::raster::Raster;
use vectify::ranking::{better, is_better, Score};
use vectify::search::{refinement_axes, seed_configs, MAX_TOLERANCE};

fn billionths(v: f64) -> i64 {
    (v * 1e9).round() as i64
}

/// Accuracy discounted by what it cost to buy, as an ordered integer.
fn discounted(match_pct: f64, points: usize, budget: usize) -> i64 {
    let reference = (budget as f64 / 32.0).max(32.0);
    let v = match_pct - 0.5 * (1.0 + points as f64 / reference).log2();
    billionths(v)
}

fn mk(match_pct: f64, points: usize, budget: usize) -> Score {
    Score {
        points,
        match_pct: billionths(match_pct),
        discounted: discounted(match_pct, points, budget),
    }
}

const TARGET: i64 = 99_000_000_000;

#[test]
fn ranking_gates_on_fidelity_then_minimises_points() {
    let budget = 100_000;
    let mk = |m, p| mk(m, p, budget);

    // Both clear the bar: fewer points wins even though it is less exact.
    let lean = mk(99.1, 50);
    let fat = mk(99.9, 500);
    assert_eq!(better(&lean, &fat, TARGET, budget), Ordering::Less);

    // Only one clears the bar: it wins regardless of cost.
    let accurate = mk(99.2, 5000);
    let cheap = mk(98.9, 10);
    assert_eq!(better(&accurate, &cheap, TARGET, budget), Ordering::Less);

    // Neither clears it: closest to the target wins.
    let near = mk(98.5, 900);
    let far = mk(90.0, 10);
    assert_eq!(better(&near, &far, TARGET, budget), Ordering::Less);
}

#[test]
fn point_budget_stops_the_search_chasing_noise() {
    let budget = 5_000;
    let mk = |m, p| mk(m, p, budget);

    // On an image nothing can match, a slightly better score bought with an
    // absurd number of points must lose.
    let bloated = mk(66.4, 36_350);
    let sane = mk(58.7, 900);
    assert_eq!(better(&sane, &bloated, TARGET, budget), Ordering::Less);

    // The budget never overrides the fidelity gate for in-budget results.
    let good = mk(99.5, 4_000);
    let small = mk(80.0, 100);
    assert_eq!(better(&good, &small, TARGET, budget), Ordering::Less);

    // If everything is over budget, ranking still picks the least bad.
    let a = mk(70.0, 50_000);
    let b = mk(60.0, 60_000);
    assert_eq!(better(&a, &b, TARGET, budget), Ordering::Less);
}

#[test]
fn fifteen_times_the_points_is_not_worth_under_a_point_of_match() {
    // Real numbers from a flat-colour logo where the target was out of reach.
    // All three are inside the budget, so only the fallback ranking is in play.
    let budget = derive_point_budget(1254, 1254);
    let mk = |m, p| mk(m, p, budget);

    let lean = mk(96.52, 1_934);
    let middling = mk(97.09, 17_984);
    let bloated = mk(97.45, 28_058);
    assert!(bloated.points <= budget);
    for other in [&middling, &bloated] {
        assert_eq!(
            better(&lean, other, TARGET, budget),
            Ordering::Less,
            "{} points beat {}",
            other.points,
            lean.points
        );
    }
}

#[test]
fn equal_scores_are_equal() {
    let a = mk(99.5, 10, 1000);
    assert_eq!(better(&a, &a, TARGET, 1000), Ordering::Equal);
    assert!(!is_better(&a, &a, TARGET, 1000));
    let b = mk(99.6, 10, 1000);
    assert_eq!(better(&b, &a, TARGET, 1000), Ordering::Less, "equal points: the closer match");
    assert_eq!(better(&a, &b, TARGET, 1000), Ordering::Greater);
}

#[test]
fn refinement_tolerances_reach_past_a_pixel_without_repeats() {
    // Presets start below a pixel, and hard-edged art only collapses its
    // stair-steps into a few segments once tolerance clears one.
    let cfg = Preset::Logo.config();
    let axes = refinement_axes(&cfg);
    let axis = axes.iter().find(|a| a.name == "tolerance").unwrap();
    let tols: Vec<f64> = axis.variants.iter().map(|c| c.fit.tolerance as f64 / 1e9).collect();
    assert!(tols.iter().any(|&t| t >= 1.0), "tolerance sweep tops out at {:?}", tols);
    assert!(tols.iter().all(|&t| t <= MAX_TOLERANCE as f64 / 1e9));
    for (i, a) in tols.iter().enumerate() {
        for b in &tols[i + 1..] {
            assert!((a - b).abs() > 1e-9, "duplicate tolerance in {tols:?}");
        }
    }

    // A start already near the ceiling must not waste evaluations on several
    // copies of it.
    let mut hi = cfg.duplicate();
    hi.fit.tolerance = 2_500_000_000;
    let axes = refinement_axes(&hi);
    let axis = axes.iter().find(|a| a.name == "tolerance").unwrap();
    let ceiling = axis.variants.iter().filter(|c| c.fit.tolerance == MAX_TOLERANCE).count();
    assert_eq!(ceiling, 1);
}

#[test]
fn budget_scales_with_image_size() {
    let small = derive_point_budget(100, 100);
    let large = derive_point_budget(2000, 2000);
    assert!(small > 1000, "budget {small} too tight for a small image");
    assert!(large > small * 4, "{large} vs {small}");
    // A 180x140 image must allow a normal trace but not tens of thousands of
    // points.
    let b = derive_point_budget(180, 140);
    assert!((2_000..12_000).contains(&b), "budget {b}");
}

fn bare() -> ImageProfile {
    ImageProfile {
        width: 0,
        height: 0,
        unique_colors: 0,
        has_alpha: false,
        sampled: 0,
        edge: 0,
        blend: 0,
        flat: 0,
        photographic: false,
        pixel_art: false,
        bilevel: false,
    }
}

#[test]
fn seeds_respond_to_the_profile() {
    let photo = ImageProfile { photographic: true, unique_colors: 50_000, ..bare() };
    let seeds = seed_configs(&photo, 12);
    assert!(seeds.iter().all(|s| s.label != "black-and-white"));
    assert!(seeds.iter().any(|s| s.config.segment.colors >= 32));

    let art = ImageProfile { pixel_art: true, unique_colors: 16, bilevel: false, ..bare() };
    let seeds = seed_configs(&art, 12);
    assert_eq!(seeds[0].label, "pixel-art");
    assert!(seeds.iter().all(|s| !s.config.subpixel.enabled));
    assert!(seed_configs(&art, 2).len() <= 2);
}

#[test]
fn profiles_are_classified_by_their_counts() {
    // Hard edges, a small palette and large flat areas.
    assert!(classify(64, 64, false, 2, 1000, 300, 0, 600).pixel_art);
    // Blends along the edges rule pixel art out.
    assert!(!classify(64, 64, false, 2, 1000, 300, 100, 600).pixel_art);
    // Many colours and hardly any flat area.
    assert!(classify(64, 64, false, 300, 1000, 10, 0, 100).photographic);
    assert!(!classify(64, 64, false, 300, 1000, 10, 0, 400).photographic);
    assert!(classify(64, 64, false, 8, 1000, 0, 0, 0).bilevel);
    assert!(!classify(64, 64, false, 9, 1000, 0, 0, 0).bilevel);
    assert_eq!(count_unique(&vec![5, 7, 5, 5, 9]), 3);
}

/// Run a search whose candidates score as `judge` says.
fn run(
    plan: Plan,
    keyed: &Vec<Rgba8>,
    judge: impl Fn(&vectify::search::Trial, Stage) -> Option<Score>,
) -> (Search, usize) {
    let prof = classify(96, 96, false, 3, 1000, 100, 50, 500);
    let mut s = Search::new(&prof, 5, keyed, 7, plan);
    let mut evaluated = 0;
    let mut steps = 0;
    while !s.is_finished() {
        let stage = s.stage;
        let results: Vec<Option<Outcome>> = s
            .batch
            .iter()
            .map(|t| {
                evaluated += 1;
                judge(t, stage).map(|score| Outcome { score, id: evaluated })
            })
            .collect();
        s.report(&results);
        steps += 1;
        assert!(steps < 10_000, "the search does not end");
    }
    (s, evaluated)
}

fn plan(downscaled: bool) -> Plan {
    Plan { target: TARGET, budget: 10_000, refine_top: 1, refine_rounds: 1, downscaled }
}

#[test]
fn candidates_come_out_ranked() {
    // Looser tolerances cost fewer points and match a little worse.
    let judge = |t: &vectify::search::Trial, _| {
        let tol = t.config.fit.tolerance as f64 / 1e9;
        Some(mk(100.0 - tol / 2.0, (200.0 / (0.1 + tol)) as usize, 10_000))
    };
    let (s, n) = run(plan(false), &Vec::new(), judge);
    let best = s.best().expect("a candidate");
    assert!(best.score.meets(TARGET));
    for w in s.candidates.windows(2) {
        assert_ne!(better(&w[1].score, &w[0].score, TARGET, 10_000), Ordering::Less);
    }
    assert!(n >= s.candidates.len());
    assert_eq!(best.points(), best.score.points);
}

#[test]
fn keyed_colours_reach_every_candidate() {
    let black = Rgba8::opaque(0, 0, 0);
    let keyed = vec![black];
    let (s, _) = run(plan(false), &keyed, |_, _| Some(mk(99.5, 10, 10_000)));
    assert!(!s.candidates.is_empty());
    for c in &s.candidates {
        assert_eq!(c.config.segment.transparent_colors, keyed, "{:?}", c.label);
        assert_eq!(c.config.segment.transparent_tolerance, 7);
    }
}

#[test]
fn a_downscaled_search_measures_everything_again() {
    let judge = |_: &vectify::search::Trial, stage| {
        Some(if stage == Stage::Rescore { mk(90.0, 77, 10_000) } else { mk(99.5, 10, 10_000) })
    };
    let (s, _) = run(plan(true), &Vec::new(), judge);
    let (all, _) = run(plan(false), &Vec::new(), judge);
    assert!(s.candidates.len() > 8, "{}", s.candidates.len());
    assert_eq!(s.candidates.len(), all.candidates.len());
    assert!(s.candidates.iter().all(|c| c.score.points == 77));
    // What cannot be measured on the real image is not reported.
    let lost = |_: &vectify::search::Trial, stage| {
        (stage != Stage::Rescore).then(|| mk(99.5, 10, 10_000))
    };
    assert!(run(plan(true), &Vec::new(), lost).0.candidates.is_empty());
}

#[test]
fn every_settings_that_were_tried_are_listed_once() {
    let tried = std::cell::RefCell::new(Vec::new());
    let (s, n) = run(plan(false), &Vec::new(), |t, _| {
        tried.borrow_mut().push(t.config.duplicate());
        // They all come out alike, which is no reason to drop any.
        Some(mk(99.5, 10, 10_000))
    });
    let tried = tried.into_inner();
    assert_eq!(tried.len(), n);
    for t in &tried {
        assert_eq!(s.candidates.iter().filter(|c| c.config.says(t)).count(), 1);
    }
    for c in &s.candidates {
        assert!(tried.iter().any(|t| t.says(&c.config)));
    }
    // Differing in one setting is differing.
    let mut other = tried[0].duplicate();
    assert!(other.says(&tried[0]));
    other.corners.smoothing += 1;
    assert!(!other.says(&tried[0]));
    other = tried[0].duplicate();
    other.corners.scales.push(1);
    assert!(!other.says(&tried[0]));
    other = tried[0].duplicate();
    other.output.background = Some(Rgba8::opaque(1, 2, 3));
    assert!(!other.says(&tried[0]));
}

#[test]
fn a_search_in_which_nothing_works_ends() {
    let (s, _) = run(plan(true), &Vec::new(), |_, _| None);
    assert!(s.candidates.is_empty());
    assert!(s.best().is_none());
}

#[test]
fn the_estimate_counts_seeds_and_sweeps() {
    let prof = classify(96, 96, false, 3, 1000, 100, 50, 500);
    let s = Search::new(&prof, 5, &Vec::new(), 0, plan(false));
    assert_eq!(s.estimate(), s.batch.len() + 12);
}

#[test]
fn presets_and_formats_have_names() {
    for p in Preset::all() {
        assert_eq!(Preset::from_name(p.name()), Some(p));
    }
    assert_eq!(Preset::from_name("nonsense"), None);
    for f in VectorFormat::all() {
        assert_eq!(VectorFormat::from_extension(f.extension()), Some(f));
    }
    assert_eq!(VectorFormat::from_extension("SVG"), Some(VectorFormat::Svg));
    assert_eq!(VectorFormat::from_extension("png"), None);
    assert_eq!(Preset::BlackAndWhite.config().segment.mode, SegmentMode::Binary);
    assert_eq!(Preset::Logo.config().segment.palette_method, PaletteMethod::KMeans);
}

// ---- Profiles -----------------------------------------------------------

type Image = Raster<[f32; 4]>;

fn luma(c: [f32; 4]) -> f32 {
    0.2126 * c[0] + 0.7152 * c[1] + 0.0722 * c[2]
}

fn is_blend(a: [f32; 4], c: [f32; 4], b: [f32; 4]) -> bool {
    let mut num = 0.0f32;
    let mut den = 0.0f32;
    for k in 0..3 {
        let diff = b[k] - a[k];
        num += (c[k] - a[k]) * diff;
        den += diff * diff;
    }
    if den <= 1e-6 {
        return false;
    }
    let t = num / den;
    let mut resid = 0.0f32;
    for k in 0..3 {
        let e = c[k] - (a[k] + (b[k] - a[k]) * t);
        resid += e * e;
    }
    (0.12..=0.88).contains(&t) && resid.sqrt() < 0.08
}

fn profiled(img: &Image) -> ImageProfile {
    profile(
        &|c: [f32; 4]| c[3] < 0.999,
        &|c: [f32; 4]| {
            (((c[0] * 31.0) as u32) << 10) | (((c[1] * 31.0) as u32) << 5) | ((c[2] * 31.0) as u32)
        },
        &|a: [f32; 4], b: [f32; 4]| (luma(b) - luma(a)).abs().to_bits(),
        &|a: [f32; 4], b: [f32; 4]| (0..3).all(|k| (a[k] - b[k]).abs() < 0.004),
        &is_blend,
        0.004f32.to_bits(),
        0.12f32.to_bits(),
        img,
    )
}

/// Of the pixels on an edge, the fraction that are blends.
fn antialiasing(p: &ImageProfile) -> f64 {
    if p.edge == 0 {
        0.0
    } else {
        p.blend as f64 / p.edge as f64
    }
}

fn drawn(w: u32, h: u32, color: &dyn Fn(u32, u32) -> [f32; 4]) -> Image {
    let mut img = Raster::new(w, h, [0.0; 4]);
    for y in 0..h {
        for x in 0..w {
            img.set(x, y, color(x, y));
        }
    }
    img
}

#[test]
fn profile_spots_pixel_art() {
    // Hard-edged checkerboard blocks: the signature of pixel art.
    let img = drawn(64, 64, &|x, y| {
        let v = if (x / 8 + y / 8) % 2 == 0 { 0.15 } else { 0.85 };
        [v, v, v, 1.0]
    });
    let p = profiled(&img);
    assert!(p.pixel_art, "{p:?}");
    assert!(antialiasing(&p) < 0.08, "aa {}", antialiasing(&p));
    assert!(!p.photographic);
    assert!(!p.has_alpha);
    assert_eq!((p.sampled, p.unique_colors), (62 * 62, 2));
}

#[test]
fn profile_spots_antialiasing() {
    // A disc with analytically correct anti-aliasing.
    let img = drawn(64, 64, &|x, y| {
        let d = ((x as f64 + 0.5 - 32.0).powi(2) + (y as f64 + 0.5 - 32.0).powi(2)).sqrt();
        let cov = ((20.0 - d) + 0.5).clamp(0.0, 1.0) as f32;
        [1.0 - cov * 0.9, 1.0 - cov * 0.8, 1.0 - cov * 0.2, 1.0]
    });
    let p = profiled(&img);
    assert!(antialiasing(&p) > 0.2, "anti-aliased disc scored aa {}", antialiasing(&p));
    assert!(!p.pixel_art, "{p:?}");
}

#[test]
fn profile_spots_a_photograph() {
    // Smooth noise in all three channels: many colours, nothing flat.
    let img = drawn(96, 96, &|x, y| {
        let fx = x as f32 / 96.0;
        let fy = y as f32 / 96.0;
        [
            (fx * 6.0).sin() * 0.5 + 0.5,
            (fy * 7.3 + 1.0).sin() * 0.5 + 0.5,
            ((fx + fy) * 5.1).cos() * 0.5 + 0.5,
            1.0,
        ]
    });
    let p = profiled(&img);
    assert!(p.photographic, "{p:?}");
    assert!(!p.bilevel);
}

/// Uniform per-channel noise.
fn add_noise(img: &Image, amount: f32, seed: u64) -> Image {
    let mut rng = Rng::new(seed);
    let mut out = img.clone();
    for c in out.data.iter_mut() {
        for v in c.iter_mut().take(3) {
            let unit = ((rng.next_u64() >> 40) as f32) / ((1u32 << 24) as f32);
            let n = (unit - 0.5) * 2.0 * amount;
            *v = (*v + n).clamp(0.0, 1.0);
        }
    }
    out
}

#[test]
fn continuous_tone_is_told_apart_from_noisy_flat_art() {
    // A smooth gradient has few distinct colours but nothing flat, and needs a
    // large palette. Noisy flat-colour art has plenty of colours and also
    // nothing flat, but a large palette would only chase noise. Colour count
    // alone cannot separate them.
    let gradient = drawn(96, 96, &|x, y| {
        let fx = x as f32 / 95.0;
        let fy = y as f32 / 95.0;
        [0.15 + 0.7 * fx, 0.25 + 0.5 * fy, 0.85 - 0.5 * fx, 1.0]
    });
    let gp = profiled(&gradient);
    assert!(gp.photographic, "smooth gradient not seen as continuous tone: {gp:?}");

    let flat = drawn(96, 96, &|x, y| {
        if (20..70).contains(&x) && (20..70).contains(&y) {
            [0.2, 0.3, 0.7, 1.0]
        } else {
            [0.85, 0.85, 0.85, 1.0]
        }
    });
    let np = profiled(&add_noise(&flat, 0.04, 99));
    assert!(
        !np.photographic,
        "noisy flat-colour art was mistaken for continuous tone: {np:?}"
    );
}

#[test]
fn profile_spots_bilevel_art() {
    let img = drawn(64, 64, &|x, y| {
        if (10..30).contains(&x) && (10..50).contains(&y) {
            [0.0, 0.0, 0.0, 1.0]
        } else {
            [1.0, 1.0, 1.0, 1.0]
        }
    });
    let p = profiled(&img);
    assert!(p.bilevel, "{p:?}");
}

#[test]
fn an_empty_image_is_nothing_in_particular() {
    let p = profiled(&drawn(0, 5, &|_, _| [0.0; 4]));
    assert!(!p.bilevel && !p.pixel_art && !p.photographic && !p.has_alpha);
    // Too narrow for a pixel to have neighbours on both sides.
    let p = profiled(&drawn(2, 9, &|_, _| [0.0; 4]));
    assert_eq!((p.sampled, p.unique_colors, p.has_alpha), (0, 1, true));
}

#[test]
fn one_differing_corner_is_not_flat() {
    let img = drawn(3, 3, &|x, y| {
        let v = if (x, y) == (0, 0) { 0.0 } else { 0.5 };
        [v, v, v, 1.0]
    });
    let p = profiled(&img);
    assert_eq!((p.sampled, p.flat), (1, 0));
    let p = profiled(&drawn(3, 3, &|_, _| [0.5, 0.5, 0.5, 1.0]));
    assert_eq!((p.sampled, p.flat), (1, 1));
}
