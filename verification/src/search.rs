//! Automatic selection of tracing parameters.
//!
//! Choosing tracing parameters by hand means guessing, then squinting at the
//! result. The search instead actually runs the candidates and measures them:
//! it seeds a spread of configurations that the image's profile makes
//! plausible, has every one traced and scored, and then refines the best few by
//! coordinate descent over the parameters that matter most, keeping any change
//! that improves the ranking.
//!
//! The search itself does no tracing. It hands out a batch of trials, is told
//! how they scored, and hands out the next batch, until it is finished.

use crate::config::{
    preset_settings, Billionths, CornerSettings, FitConfig, OutputConfig, PaletteMethod, Preset,
    SegmentMode, SegmentSettings, Settings, SubpixelConfig, VectorizeConfig,
};
use crate::profile::ImageProfile;
use crate::text::{decimal, push_decimal, push_text};
use vstd::prelude::*;

verus! {

// ---- Seeds --------------------------------------------------------------

/// A labelled configuration to be traced and scored.
pub struct Trial {
    pub label: String,
    pub config: VectorizeConfig,
}

/// What a [`Trial`] says.
pub ghost struct TrialView {
    pub label: Seq<char>,
    pub settings: Settings,
}

impl View for Trial {
    type V = TrialView;

    open spec fn view(&self) -> TrialView {
        TrialView { label: self.label@, settings: self.config@ }
    }
}

pub open spec fn trials_of(v: Seq<Trial>) -> Seq<TrialView> {
    Seq::new(v.len(), |i: int| v[i]@)
}

/// The palette sizes to try. They are the single most important axis, so they
/// are sampled broadly rather than guessed at.
pub open spec fn color_steps(p: ImageProfile) -> Seq<usize> {
    if p.photographic {
        seq![16usize, 24, 32, 48, 64]
    } else if p.unique_colors < 32 {
        seq![2usize, 3, 4, 6, 8, 12]
    } else {
        seq![4usize, 6, 8, 12, 16, 24, 32]
    }
}

/// The preset from which a palette of `k` colours starts.
pub open spec fn palette_base(photographic: bool, k: usize) -> Preset {
    if photographic {
        Preset::Photo
    } else if k <= 6 {
        Preset::Logo
    } else if k <= 16 {
        Preset::Clipart
    } else {
        Preset::Artwork
    }
}

/// The seed with a palette of `k` colours.
pub open spec fn palette_seed(p: ImageProfile, k: usize) -> TrialView {
    let base = preset_settings(palette_base(p.photographic, k));
    TrialView {
        label: "palette-"@ + decimal(k as nat),
        settings: Settings {
            segment: SegmentSettings { mode: SegmentMode::Palette, colors: k, ..base.segment },
            ..base
        },
    }
}

pub open spec fn preset_seed(label: Seq<char>, p: Preset) -> TrialView {
    TrialView { label, settings: preset_settings(p) }
}

/// Settings that trace the pixel grid exactly: on hard-edged input there is no
/// anti-aliasing to invert and no noise to smooth.
pub open spec fn hard_edged(s: Settings) -> Settings {
    Settings {
        subpixel: SubpixelConfig { enabled: false, ..s.subpixel },
        corners: CornerSettings { smoothing: 0, noise_adaptive: false, ..s.corners },
        fit: FitConfig {
            tolerance: if s.fit.tolerance < 100_000_000 {
                s.fit.tolerance
            } else {
                100_000_000
            },
            ..s.fit
        },
        ..s
    }
}

/// The seeds that a profile suggests, before hard edges are taken into account.
pub open spec fn plain_seeds(p: ImageProfile) -> Seq<TrialView> {
    let none = Seq::<TrialView>::empty();
    let pixel = if p.pixel_art {
        seq![preset_seed("pixel-art"@, Preset::PixelArt)]
    } else {
        none
    };
    let early = if p.bilevel {
        seq![preset_seed("black-and-white"@, Preset::BlackAndWhite)]
    } else {
        none
    };
    let steps = color_steps(p);
    let palettes = Seq::new(steps.len(), |i: int| palette_seed(p, steps[i]));
    let late = if !p.bilevel && !p.photographic {
        seq![preset_seed("black-and-white"@, Preset::BlackAndWhite)]
    } else {
        none
    };
    pixel + early + palettes + late
}

/// All seeds for a profile.
pub open spec fn seed_list(p: ImageProfile) -> Seq<TrialView> {
    let seeds = plain_seeds(p);
    if p.pixel_art {
        Seq::new(
            seeds.len(),
            |i: int|
                TrialView { label: seeds[i].label, settings: hard_edged(seeds[i].settings) },
        )
    } else {
        seeds
    }
}

/// How many of `n` seeds are kept: at most `max`, but at least one.
pub open spec fn seed_count(n: int, max: int) -> int {
    let cap = if max < 1 {
        1
    } else {
        max
    };
    if n < cap {
        n
    } else {
        cap
    }
}

fn preset_trial(label: &str, p: Preset) -> (t: Trial)
    ensures
        t@ == preset_seed(label@, p),
{
    let mut l: String = String::new();
    push_text(&mut l, label);
    assert(l@ =~= label@);
    Trial { label: l, config: p.config() }
}

fn palette_trial(p: &ImageProfile, k: usize) -> (t: Trial)
    ensures
        t@ == palette_seed(*p, k),
{
    let base: Preset = if p.photographic {
        Preset::Photo
    } else if k <= 6 {
        Preset::Logo
    } else if k <= 16 {
        Preset::Clipart
    } else {
        Preset::Artwork
    };
    let mut config: VectorizeConfig = base.config();
    config.segment.mode = SegmentMode::Palette;
    config.segment.colors = k;
    let mut label: String = String::new();
    push_text(&mut label, "palette-");
    push_decimal(&mut label, k as u64);
    assert(label@ =~= "palette-"@ + decimal(k as nat));
    Trial { label, config }
}

fn step_sizes(p: &ImageProfile) -> (v: Vec<usize>)
    ensures
        v@ == color_steps(*p),
{
    let v: Vec<usize> = if p.photographic {
        vec![16, 24, 32, 48, 64]
    } else if p.unique_colors < 32 {
        vec![2, 3, 4, 6, 8, 12]
    } else {
        vec![4, 6, 8, 12, 16, 24, 32]
    };
    assert(v@ =~= color_steps(*p));
    v
}

/// Candidate configurations to try first, ordered by how likely the profile
/// says they are to suit the image.
pub fn seed_configs(p: &ImageProfile, max: usize) -> (out: Vec<Trial>)
    ensures
        trials_of(out@) == seed_list(*p).take(
            seed_count(seed_list(*p).len() as int, max as int),
        ),
{
    let mut out: Vec<Trial> = Vec::new();
    if p.pixel_art {
        out.push(preset_trial("pixel-art", Preset::PixelArt));
    }
    if p.bilevel {
        out.push(preset_trial("black-and-white", Preset::BlackAndWhite));
    }
    let ghost head = trials_of(out@);
    let steps: Vec<usize> = step_sizes(p);
    let ghost palettes = Seq::new(steps@.len(), |i: int| palette_seed(*p, steps@[i]));
    let mut i: usize = 0;
    assert(head + palettes.take(0) =~= head);
    while i < steps.len()
        invariant
            i <= steps@.len(),
            palettes == Seq::new(steps@.len(), |i: int| palette_seed(*p, steps@[i])),
            trials_of(out@) == head + palettes.take(i as int),
        decreases steps@.len() - i,
    {
        let ghost before = out@;
        let t: Trial = palette_trial(p, steps[i]);
        out.push(t);
        proof {
            assert(trials_of(out@) =~= trials_of(before).push(t@));
            assert(head + palettes.take(i + 1) =~= (head + palettes.take(i as int)).push(
                palettes[i as int],
            ));
        }
        i = i + 1;
    }
    assert(palettes.take(i as int) =~= palettes);
    let ghost before = out@;
    if !p.bilevel && !p.photographic {
        let t: Trial = preset_trial("black-and-white", Preset::BlackAndWhite);
        out.push(t);
        assert(trials_of(out@) =~= trials_of(before).push(t@));
    }
    assert(trials_of(out@) =~= plain_seeds(*p));
    if p.pixel_art {
        let ghost plain = trials_of(out@);
        let n: usize = out.len();
        let mut k: usize = 0;
        while k < n
            invariant
                k <= n,
                n == out@.len(),
                n == plain.len(),
                forall|j: int|
                    0 <= j < k ==> (#[trigger] out@[j])@ == (TrialView {
                        label: plain[j].label,
                        settings: hard_edged(plain[j].settings),
                    }),
                forall|j: int| k <= j < n ==> (#[trigger] out@[j])@ == plain[j],
            decreases n - k,
        {
            assert(out@[k as int]@ == plain[k as int]);
            out[k].config.subpixel.enabled = false;
            out[k].config.corners.smoothing = 0;
            out[k].config.corners.noise_adaptive = false;
            let t: i64 = out[k].config.fit.tolerance;
            out[k].config.fit.tolerance = if t < 100_000_000 {
                t
            } else {
                100_000_000
            };
            k = k + 1;
        }
    }
    assert(trials_of(out@) =~= seed_list(*p));
    let cap: usize = if max < 1 {
        1
    } else {
        max
    };
    let ghost all = out@;
    if out.len() > cap {
        out.truncate(cap);
    }
    assert(trials_of(out@) =~= seed_list(*p).take(
        seed_count(seed_list(*p).len() as int, max as int),
    ));
    out
}

// ---- Refinement axes ----------------------------------------------------

/// A parameter and the configurations that vary it.
pub struct Axis {
    pub name: &'static str,
    pub variants: Vec<VectorizeConfig>,
}

/// What an [`Axis`] says.
pub ghost struct AxisView {
    pub name: Seq<char>,
    pub variants: Seq<Settings>,
}

pub open spec fn settings_of(v: Seq<VectorizeConfig>) -> Seq<Settings> {
    Seq::new(v.len(), |i: int| v[i]@)
}

impl View for Axis {
    type V = AxisView;

    open spec fn view(&self) -> AxisView {
        AxisView { name: self.name@, variants: settings_of(self.variants@) }
    }
}

pub open spec fn axes_of(v: Seq<Axis>) -> Seq<AxisView> {
    Seq::new(v.len(), |i: int| v[i]@)
}

/// Tightest and loosest curve tolerance that refinement will try.
pub const MIN_TOLERANCE: i64 = 20_000_000;

pub const MAX_TOLERANCE: i64 = 3_000_000_000;

/// Factors by which the tolerance is varied, in hundredths. The sweep has to
/// reach well past a pixel: hard-edged input has one-pixel stair-steps, and
/// while the tolerance is below roughly 0.7 pixels the fitter must give every
/// step its own line segment.
pub open spec fn tolerance_factors() -> Seq<int> {
    seq![35int, 60, 85, 130, 180, 250, 350, 500]
}

/// `tol` times `factor` hundredths, to the nearest billionth, within bounds.
pub open spec fn scaled_tolerance(tol: Billionths, factor: int) -> Billionths {
    let t = (tol * factor + 50) / 100;
    if t < MIN_TOLERANCE {
        MIN_TOLERANCE
    } else if t > MAX_TOLERANCE {
        MAX_TOLERANCE
    } else {
        t as i64
    }
}

/// The tolerances to try from the first `k` factors, each once: large factors
/// all reach the same ceiling.
pub open spec fn tolerances(tol: Billionths, k: int) -> Seq<Billionths>
    decreases k,
{
    if k <= 0 {
        Seq::empty()
    } else {
        let rest = tolerances(tol, k - 1);
        let t = scaled_tolerance(tol, tolerance_factors()[k - 1]);
        if rest.contains(t) {
            rest
        } else {
            rest.push(t)
        }
    }
}

pub open spec fn color_shifts() -> Seq<int> {
    seq![-16int, -8, -4, -2, -1, 1, 2, 4, 8, 16]
}

/// The palette sizes to try from the first `k` shifts: those from 2 to 128.
pub open spec fn color_counts(colors: usize, k: int) -> Seq<usize>
    decreases k,
{
    if k <= 0 {
        Seq::empty()
    } else {
        let rest = color_counts(colors, k - 1);
        let n = colors + color_shifts()[k - 1];
        if 2 <= n <= 128 {
            rest.push(n as usize)
        } else {
            rest
        }
    }
}

pub open spec fn with_tolerance(s: Settings, t: Billionths) -> Settings {
    Settings { fit: FitConfig { tolerance: t, ..s.fit }, ..s }
}

pub open spec fn with_colors(s: Settings, k: usize) -> Settings {
    Settings { segment: SegmentSettings { colors: k, ..s.segment }, ..s }
}

pub open spec fn with_other_method(s: Settings) -> Settings {
    Settings {
        segment: SegmentSettings {
            palette_method: match s.segment.palette_method {
                PaletteMethod::KMeans => PaletteMethod::MedianCut,
                PaletteMethod::MedianCut => PaletteMethod::KMeans,
            },
            ..s.segment
        },
        ..s
    }
}

pub open spec fn with_other_recolor(s: Settings) -> Settings {
    Settings {
        output: OutputConfig { recolor_regions: !s.output.recolor_regions, ..s.output },
        ..s
    }
}

pub open spec fn with_smoothing(s: Settings, v: Billionths) -> Settings {
    Settings { corners: CornerSettings { smoothing: v, ..s.corners }, ..s }
}

pub open spec fn with_threshold(s: Settings, v: Billionths) -> Settings {
    Settings { corners: CornerSettings { threshold_deg: v, ..s.corners }, ..s }
}

pub open spec fn with_despeckle(s: Settings, v: u32) -> Settings {
    Settings { segment: SegmentSettings { despeckle_area: v, ..s.segment }, ..s }
}

pub open spec fn smoothing_steps() -> Seq<Billionths> {
    seq![0i64, 250_000_000, 500_000_000, 750_000_000, 1_000_000_000]
}

pub open spec fn threshold_steps() -> Seq<Billionths> {
    seq![35_000_000_000i64, 50_000_000_000, 65_000_000_000, 80_000_000_000]
}

pub open spec fn despeckle_steps() -> Seq<u32> {
    seq![0u32, 2, 6, 12, 24]
}

/// Arcs as arcs, arcs drawn as cubics, and no arcs.
pub open spec fn arc_variants(s: Settings) -> Seq<Settings> {
    seq![
        Settings { fit: FitConfig { allow_arcs: true, emit_true_arcs: true, ..s.fit }, ..s },
        Settings { fit: FitConfig { allow_arcs: true, emit_true_arcs: false, ..s.fit }, ..s },
        Settings { fit: FitConfig { allow_arcs: false, ..s.fit }, ..s },
    ]
}

/// The parameter neighbourhoods of `s`, most valuable first.
pub open spec fn axes_for(s: Settings) -> Seq<AxisView> {
    let tols = tolerances(s.fit.tolerance, 8);
    let counts = color_counts(s.segment.colors, 10);
    let head = seq![
        AxisView {
            name: "tolerance"@,
            variants: Seq::new(tols.len(), |i: int| with_tolerance(s, tols[i])),
        },
    ];
    let palette = if s.segment.mode == SegmentMode::Palette {
        seq![
            AxisView {
                name: "colors"@,
                variants: Seq::new(counts.len(), |i: int| with_colors(s, counts[i])),
            },
            AxisView { name: "palette-method"@, variants: seq![with_other_method(s)] },
            AxisView { name: "recolor"@, variants: seq![with_other_recolor(s)] },
        ]
    } else {
        Seq::empty()
    };
    let tail = seq![
        AxisView {
            name: "smoothing"@,
            variants: Seq::new(5, |i: int| with_smoothing(s, smoothing_steps()[i])),
        },
        AxisView {
            name: "corner-threshold"@,
            variants: Seq::new(4, |i: int| with_threshold(s, threshold_steps()[i])),
        },
        AxisView { name: "arcs"@, variants: arc_variants(s) },
        AxisView {
            name: "despeckle"@,
            variants: Seq::new(5, |i: int| with_despeckle(s, despeckle_steps()[i])),
        },
    ];
    head + palette + tail
}

fn tolerance_list(tol: Billionths) -> (out: Vec<i64>)
    ensures
        out@ == tolerances(tol, 8),
{
    let factors: Vec<i64> = vec![35, 60, 85, 130, 180, 250, 350, 500];
    let mut out: Vec<i64> = Vec::new();
    let mut k: usize = 0;
    assert(out@ =~= tolerances(tol, 0));
    while k < 8
        invariant
            k <= 8,
            factors@.len() == 8,
            factors@ == seq![35i64, 60, 85, 130, 180, 250, 350, 500],
            out@ == tolerances(tol, k as int),
        decreases 8 - k,
    {
        let f: i64 = factors[k];
        assert(f == tolerance_factors()[k as int]);
        assert(0 < f <= 500);
        assert(-0x8000_0000_0000_0000 * 500 <= tol * f <= 0x8000_0000_0000_0000 * 500)
            by (nonlinear_arith)
            requires
                -0x8000_0000_0000_0000 <= tol <= 0x7fff_ffff_ffff_ffff,
                0 < f <= 500,
        ;
        let scaled: i128 = tol as i128 * f as i128 + 50;
        let t: i64 = if scaled < 100 * MIN_TOLERANCE as i128 {
            MIN_TOLERANCE
        } else if scaled > 100 * MAX_TOLERANCE as i128 + 99 {
            MAX_TOLERANCE
        } else {
            (scaled / 100) as i64
        };
        assert(t == scaled_tolerance(tol, f as int));
        let mut seen: bool = false;
        let mut j: usize = 0;
        while j < out.len()
            invariant
                j <= out@.len(),
                seen <==> exists|q: int| 0 <= q < j && #[trigger] out@[q] == t,
            decreases out@.len() - j,
        {
            if out[j] == t {
                seen = true;
            }
            j = j + 1;
        }
        assert(seen == out@.contains(t));
        if !seen {
            out.push(t);
        }
        k = k + 1;
    }
    out
}

fn count_list(colors: usize) -> (out: Vec<usize>)
    ensures
        out@ == color_counts(colors, 10),
{
    let shifts: Vec<i128> = vec![-16, -8, -4, -2, -1, 1, 2, 4, 8, 16];
    let mut out: Vec<usize> = Vec::new();
    let mut k: usize = 0;
    assert(out@ =~= color_counts(colors, 0));
    while k < 10
        invariant
            k <= 10,
            shifts@.len() == 10,
            forall|q: int| 0 <= q < 10 ==> #[trigger] shifts@[q] == color_shifts()[q],
            forall|q: int| 0 <= q < 10 ==> -16 <= #[trigger] shifts@[q] <= 16,
            out@ == color_counts(colors, k as int),
        decreases 10 - k,
    {
        let d: i128 = shifts[k];
        assert(d == color_shifts()[k as int]);
        let n: i128 = colors as i128 + d;
        if 2 <= n && n <= 128 {
            out.push(n as usize);
        }
        k = k + 1;
    }
    out
}

/// Parameter neighbourhoods explored during refinement, most valuable first.
#[verifier::rlimit(40)]
pub fn refinement_axes(cfg: &VectorizeConfig) -> (axes: Vec<Axis>)
    ensures
        axes_of(axes@) == axes_for(cfg@),
{
    let ghost s = cfg@;
    let mut axes: Vec<Axis> = Vec::new();
    let tols: Vec<i64> = tolerance_list(cfg.fit.tolerance);
    let mut variants: Vec<VectorizeConfig> = Vec::new();
    let mut i: usize = 0;
    while i < tols.len()
        invariant
            i <= tols@.len(),
            s == cfg@,
            variants@.len() == i,
            forall|j: int|
                0 <= j < i ==> (#[trigger] variants@[j])@ == with_tolerance(s, tols@[j]),
        decreases tols@.len() - i,
    {
        let mut c: VectorizeConfig = cfg.duplicate();
        c.fit.tolerance = tols[i];
        variants.push(c);
        i = i + 1;
    }
    let tolerance = Axis { name: "tolerance", variants };
    let ghost a0 = tolerance@;
    axes.push(tolerance);
    proof {
        assert(a0.variants =~= Seq::new(
            tols@.len(),
            |i: int| with_tolerance(s, tols@[i]),
        ));
    }
    let palette: bool = cfg.segment.mode == SegmentMode::Palette;
    let ghost mut pal: Seq<AxisView> = Seq::empty();
    if palette {
        let counts: Vec<usize> = count_list(cfg.segment.colors);
        let mut variants: Vec<VectorizeConfig> = Vec::new();
        let mut i: usize = 0;
        while i < counts.len()
            invariant
                i <= counts@.len(),
                s == cfg@,
                variants@.len() == i,
                forall|j: int|
                    0 <= j < i ==> (#[trigger] variants@[j])@ == with_colors(s, counts@[j]),
            decreases counts@.len() - i,
        {
            let mut c: VectorizeConfig = cfg.duplicate();
            c.segment.colors = counts[i];
            variants.push(c);
            i = i + 1;
        }
        let colors = Axis { name: "colors", variants };
        let mut c: VectorizeConfig = cfg.duplicate();
        c.segment.palette_method = match cfg.segment.palette_method {
            PaletteMethod::KMeans => PaletteMethod::MedianCut,
            PaletteMethod::MedianCut => PaletteMethod::KMeans,
        };
        let method = Axis { name: "palette-method", variants: vec![c] };
        let mut c: VectorizeConfig = cfg.duplicate();
        c.output.recolor_regions = !cfg.output.recolor_regions;
        let recolor = Axis { name: "recolor", variants: vec![c] };
        proof {
            assert(colors@.variants =~= Seq::new(
                counts@.len(),
                |i: int| with_colors(s, counts@[i]),
            ));
            assert(method@.variants =~= seq![with_other_method(s)]);
            assert(recolor@.variants =~= seq![with_other_recolor(s)]);
            pal = seq![colors@, method@, recolor@];
        }
        axes.push(colors);
        axes.push(method);
        axes.push(recolor);
    }
    assert(axes_of(axes@) =~= seq![a0] + pal);
    let tail: Vec<Axis> = tail_axes(cfg);
    let ghost before = axes@;
    let ghost rest = tail@;
    let mut tail: Vec<Axis> = tail;
    axes.append(&mut tail);
    proof {
        assert(axes@ == before + rest);
        assert(axes_of(axes@) =~= axes_of(before) + axes_of(rest));
        assert(axes_of(axes@) =~= axes_for(s));
    }
    axes
}

/// The axes that do not depend on how regions are found.
fn tail_axes(cfg: &VectorizeConfig) -> (axes: Vec<Axis>)
    ensures
        axes_of(axes@) == seq![
            AxisView {
                name: "smoothing"@,
                variants: Seq::new(5, |i: int| with_smoothing(cfg@, smoothing_steps()[i])),
            },
            AxisView {
                name: "corner-threshold"@,
                variants: Seq::new(4, |i: int| with_threshold(cfg@, threshold_steps()[i])),
            },
            AxisView { name: "arcs"@, variants: arc_variants(cfg@) },
            AxisView {
                name: "despeckle"@,
                variants: Seq::new(5, |i: int| with_despeckle(cfg@, despeckle_steps()[i])),
            },
        ],
{
    let ghost s = cfg@;
    let steps: Vec<i64> = vec![0, 250_000_000, 500_000_000, 750_000_000, 1_000_000_000];
    assert(steps@ =~= smoothing_steps());
    let mut variants: Vec<VectorizeConfig> = Vec::new();
    let mut i: usize = 0;
    while i < 5
        invariant
            i <= 5,
            steps@ == smoothing_steps(),
            s == cfg@,
            variants@.len() == i,
            forall|j: int|
                0 <= j < i ==> (#[trigger] variants@[j])@ == with_smoothing(s, steps@[j]),
        decreases 5 - i,
    {
        let mut c: VectorizeConfig = cfg.duplicate();
        c.corners.smoothing = steps[i];
        variants.push(c);
        i = i + 1;
    }
    let smoothing = Axis { name: "smoothing", variants };
    let steps: Vec<i64> = vec![35_000_000_000, 50_000_000_000, 65_000_000_000, 80_000_000_000];
    assert(steps@ =~= threshold_steps());
    let mut variants: Vec<VectorizeConfig> = Vec::new();
    let mut i: usize = 0;
    while i < 4
        invariant
            i <= 4,
            steps@ == threshold_steps(),
            s == cfg@,
            variants@.len() == i,
            forall|j: int|
                0 <= j < i ==> (#[trigger] variants@[j])@ == with_threshold(s, steps@[j]),
        decreases 4 - i,
    {
        let mut c: VectorizeConfig = cfg.duplicate();
        c.corners.threshold_deg = steps[i];
        variants.push(c);
        i = i + 1;
    }
    let threshold = Axis { name: "corner-threshold", variants };
    let mut c1: VectorizeConfig = cfg.duplicate();
    c1.fit.allow_arcs = true;
    c1.fit.emit_true_arcs = true;
    let mut c2: VectorizeConfig = cfg.duplicate();
    c2.fit.allow_arcs = true;
    c2.fit.emit_true_arcs = false;
    let mut c3: VectorizeConfig = cfg.duplicate();
    c3.fit.allow_arcs = false;
    let arcs = Axis { name: "arcs", variants: vec![c1, c2, c3] };
    let steps: Vec<u32> = vec![0, 2, 6, 12, 24];
    assert(steps@ =~= despeckle_steps());
    let mut variants: Vec<VectorizeConfig> = Vec::new();
    let mut i: usize = 0;
    while i < 5
        invariant
            i <= 5,
            steps@ == despeckle_steps(),
            s == cfg@,
            variants@.len() == i,
            forall|j: int|
                0 <= j < i ==> (#[trigger] variants@[j])@ == with_despeckle(s, steps@[j]),
        decreases 5 - i,
    {
        let mut c: VectorizeConfig = cfg.duplicate();
        c.segment.despeckle_area = steps[i];
        variants.push(c);
        i = i + 1;
    }
    let despeckle = Axis { name: "despeckle", variants };
    proof {
        assert(smoothing@.variants =~= Seq::new(
            5,
            |i: int| with_smoothing(s, smoothing_steps()[i]),
        ));
        assert(threshold@.variants =~= Seq::new(
            4,
            |i: int| with_threshold(s, threshold_steps()[i]),
        ));
        assert(arcs@.variants =~= arc_variants(s));
        assert(despeckle@.variants =~= Seq::new(
            5,
            |i: int| with_despeckle(s, despeckle_steps()[i]),
        ));
    }
    let ghost views = seq![smoothing@, threshold@, arcs@, despeckle@];
    let axes: Vec<Axis> = vec![smoothing, threshold, arcs, despeckle];
    assert(axes_of(axes@) =~= views);
    axes
}

// ---- What is tried ------------------------------------------------------

/// A scaled tolerance is the nearest billionth, unless it would leave the bounds.
pub proof fn law_tolerances_are_scaled_to_the_nearest(tol: Billionths, factor: int)
    requires
        tol >= 0,
        factor >= 0,
    ensures
        ({
            let t = scaled_tolerance(tol, factor) as int;
            &&& MIN_TOLERANCE <= t <= MAX_TOLERANCE
            &&& MIN_TOLERANCE < t < MAX_TOLERANCE ==> -50 <= 100 * t - tol * factor <= 50
            &&& t == MIN_TOLERANCE ==> tol * factor < 100 * MIN_TOLERANCE + 50
            &&& t == MAX_TOLERANCE ==> tol * factor >= 100 * MAX_TOLERANCE - 50
        }),
{
}

/// The tolerances to try are those that the factors give, each once.
pub proof fn law_each_tolerance_is_tried_once(tol: Billionths, k: int)
    requires
        0 <= k <= 8,
    ensures
        forall|i: int|
            0 <= i < k ==> tolerances(tol, k).contains(
                scaled_tolerance(tol, #[trigger] tolerance_factors()[i]),
            ),
        forall|a: int, b: int|
            0 <= a < b < tolerances(tol, k).len() ==> #[trigger] tolerances(tol, k)[a]
                != #[trigger] tolerances(tol, k)[b],
        forall|a: int|
            0 <= a < tolerances(tol, k).len() ==> exists|i: int|
                0 <= i < k && scaled_tolerance(tol, #[trigger] tolerance_factors()[i])
                    == #[trigger] tolerances(tol, k)[a],
    decreases k,
{
    if k > 0 {
        law_each_tolerance_is_tried_once(tol, k - 1);
        let rest = tolerances(tol, k - 1);
        let all = tolerances(tol, k);
        let t = scaled_tolerance(tol, tolerance_factors()[k - 1]);
        if !rest.contains(t) {
            assert(all == rest.push(t));
            assert(all[rest.len() as int] == t);
        }
        assert forall|i: int| 0 <= i < k implies all.contains(
            scaled_tolerance(tol, #[trigger] tolerance_factors()[i]),
        ) by {
            let u = scaled_tolerance(tol, tolerance_factors()[i]);
            if i < k - 1 {
                let a = choose|a: int| 0 <= a < rest.len() && rest[a] == u;
                assert(all[a] == u);
            }
        }
        assert forall|a: int| 0 <= a < all.len() implies exists|i: int|
            0 <= i < k && scaled_tolerance(tol, #[trigger] tolerance_factors()[i])
                == #[trigger] all[a] by {
            if a < rest.len() {
                assert(all[a] == rest[a]);
                let i = choose|i: int|
                    0 <= i < k - 1 && scaled_tolerance(tol, #[trigger] tolerance_factors()[i])
                        == rest[a];
                assert(scaled_tolerance(tol, tolerance_factors()[i]) == all[a]);
            } else {
                assert(scaled_tolerance(tol, tolerance_factors()[k - 1]) == all[a]);
            }
        }
    }
}

/// A palette size is tried exactly where it is from 2 to 128 and one, two, four, eight or
/// sixteen away from the one there is; smaller sizes come first.
pub proof fn law_palette_sizes_step_by_doubling(colors: usize, n: usize)
    requires
        colors <= 1_000_000,
    ensures
        color_counts(colors, 10).contains(n) <==> 2 <= n <= 128 && (n == colors + 1 || n == colors
            + 2 || n == colors + 4 || n == colors + 8 || n == colors + 16 || colors == n + 1
            || colors == n + 2 || colors == n + 4 || colors == n + 8 || colors == n + 16),
        forall|a: int, b: int|
            0 <= a < b < color_counts(colors, 10).len() ==> #[trigger] color_counts(colors, 10)[a]
                < #[trigger] color_counts(colors, 10)[b],
{
    lemma_counts(colors, 10, n);
    let s = color_shifts();
    assert(s[0] == -16 && s[1] == -8 && s[2] == -4 && s[3] == -2 && s[4] == -1 && s[5] == 1 && s[6]
        == 2 && s[7] == 4 && s[8] == 8 && s[9] == 16);
}

proof fn lemma_counts(colors: usize, k: int, n: usize)
    requires
        0 <= k <= 10,
        colors <= 1_000_000,
    ensures
        color_counts(colors, k).contains(n) <==> 2 <= n <= 128 && exists|i: int|
            0 <= i < k && n == colors + #[trigger] color_shifts()[i],
        forall|a: int|
            0 <= a < color_counts(colors, k).len() ==> exists|i: int|
                0 <= i < k && #[trigger] color_counts(colors, k)[a] == colors
                    + #[trigger] color_shifts()[i],
        forall|a: int, b: int|
            0 <= a < b < color_counts(colors, k).len() ==> #[trigger] color_counts(colors, k)[a]
                < #[trigger] color_counts(colors, k)[b],
    decreases k,
{
    let s = color_shifts();
    assert(s[0] == -16 && s[1] == -8 && s[2] == -4 && s[3] == -2 && s[4] == -1 && s[5] == 1 && s[6]
        == 2 && s[7] == 4 && s[8] == 8 && s[9] == 16);
    if k > 0 {
        lemma_counts(colors, k - 1, n);
        let rest = color_counts(colors, k - 1);
        let all = color_counts(colors, k);
        let m = colors + s[k - 1];
        if 2 <= m <= 128 {
            assert(all == rest.push(m as usize));
            assert(all[rest.len() as int] == m);
        } else {
            assert(all == rest);
        }
        assert forall|a: int| 0 <= a < all.len() implies exists|i: int|
            0 <= i < k && #[trigger] all[a] == colors + #[trigger] color_shifts()[i] by {
            if a < rest.len() {
                assert(all[a] == rest[a]);
                let i = choose|i: int|
                    0 <= i < k - 1 && rest[a] == colors + #[trigger] color_shifts()[i];
                assert(all[a] == colors + color_shifts()[i]);
            } else {
                assert(all[a] == colors + color_shifts()[k - 1]);
            }
        }
        assert forall|a: int, b: int| 0 <= a < b < all.len() implies #[trigger] all[a]
            < #[trigger] all[b] by {
            if b < rest.len() {
                assert(rest[a] < rest[b]);
            } else {
                assert(all[a] == rest[a]);
                let i = choose|i: int|
                    0 <= i < k - 1 && rest[a] == colors + #[trigger] color_shifts()[i];
                assert(s[i] < s[k - 1]);
            }
        }
        if exists|i: int| 0 <= i < k - 1 && n == colors + #[trigger] color_shifts()[i] {
            if 2 <= n <= 128 {
                assert(rest.contains(n));
                let a = choose|a: int| 0 <= a < rest.len() && rest[a] == n;
                assert(all[a] == n);
            }
        }
        if all.contains(n) {
            let a = choose|a: int| 0 <= a < all.len() && all[a] == n;
            if a < rest.len() {
                assert(rest[a] == n);
                assert(rest.contains(n));
            }
        }
        if 2 <= n <= 128 && n == m {
            assert(all.contains(n));
        }
    }
}

/// Variant `k` of the axis `name` changes its own setting and leaves the others: put back,
/// the settings are those it started from.
#[verifier::opaque]
pub open spec fn is_variation(s: Settings, name: Seq<char>, v: Settings, k: int) -> bool {
    ||| name == "tolerance"@ && (Settings {
        fit: FitConfig { tolerance: s.fit.tolerance, ..v.fit },
        ..v
    }) == s
    ||| name == "colors"@ && s.segment.mode == SegmentMode::Palette && (Settings {
        segment: SegmentSettings { colors: s.segment.colors, ..v.segment },
        ..v
    }) == s && v.segment.colors != s.segment.colors
    ||| name == "palette-method"@ && s.segment.mode == SegmentMode::Palette && (Settings {
        segment: SegmentSettings {
            palette_method: s.segment.palette_method,
            ..v.segment
        },
        ..v
    }) == s && v.segment.palette_method != s.segment.palette_method
    ||| name == "recolor"@ && s.segment.mode == SegmentMode::Palette && (Settings {
        output: OutputConfig { recolor_regions: s.output.recolor_regions, ..v.output },
        ..v
    }) == s && v.output.recolor_regions != s.output.recolor_regions
    ||| name == "smoothing"@ && (Settings {
        corners: CornerSettings { smoothing: s.corners.smoothing, ..v.corners },
        ..v
    }) == s && v.corners.smoothing == k * 250_000_000
    ||| name == "corner-threshold"@ && (Settings {
        corners: CornerSettings { threshold_deg: s.corners.threshold_deg, ..v.corners },
        ..v
    }) == s && v.corners.threshold_deg == 35_000_000_000 + k * 15_000_000_000
    ||| name == "arcs"@ && (Settings {
        fit: FitConfig {
            allow_arcs: s.fit.allow_arcs,
            emit_true_arcs: s.fit.emit_true_arcs,
            ..v.fit
        },
        ..v
    }) == s && (v.fit.allow_arcs <==> k < 2) && (k < 2 ==> (v.fit.emit_true_arcs <==> k
        == 0))
    ||| name == "despeckle"@ && (Settings {
        segment: SegmentSettings { despeckle_area: s.segment.despeckle_area, ..v.segment },
        ..v
    }) == s
}

proof fn lemma_tolerance_axis(s: Settings, t: Billionths, k: int)
    ensures
        is_variation(s, "tolerance"@, with_tolerance(s, t), k),
{
    reveal(is_variation);
}

proof fn lemma_color_axis(s: Settings, c: usize, k: int)
    requires
        s.segment.mode == SegmentMode::Palette,
        c != s.segment.colors,
    ensures
        is_variation(s, "colors"@, with_colors(s, c), k),
{
    reveal(is_variation);
}

proof fn lemma_palette_axes(s: Settings, k: int)
    requires
        s.segment.mode == SegmentMode::Palette,
    ensures
        is_variation(s, "palette-method"@, with_other_method(s), k),
        is_variation(s, "recolor"@, with_other_recolor(s), k),
{
    reveal(is_variation);
}

proof fn lemma_corner_axes(s: Settings, k: int)
    ensures
        0 <= k < 5 ==> is_variation(s, "smoothing"@, with_smoothing(s, smoothing_steps()[k]), k),
        0 <= k < 4 ==> is_variation(
            s,
            "corner-threshold"@,
            with_threshold(s, threshold_steps()[k]),
            k,
        ),
{
    reveal(is_variation);
    assert(smoothing_steps()[0] == 0 && smoothing_steps()[1] == 250_000_000 && smoothing_steps()[2]
        == 500_000_000 && smoothing_steps()[3] == 750_000_000 && smoothing_steps()[4]
        == 1_000_000_000);
    assert(threshold_steps()[0] == 35_000_000_000 && threshold_steps()[1] == 50_000_000_000
        && threshold_steps()[2] == 65_000_000_000 && threshold_steps()[3] == 80_000_000_000);
}

proof fn lemma_last_axes(s: Settings, k: int)
    ensures
        0 <= k < 3 ==> is_variation(s, "arcs"@, arc_variants(s)[k], k),
        0 <= k < 5 ==> is_variation(s, "despeckle"@, with_despeckle(s, despeckle_steps()[k]), k),
{
    reveal(is_variation);
}

/// Every axis changes its own setting and leaves the others.
pub proof fn law_axes_vary_one_setting(s: Settings, a: int, k: int)
    requires
        0 <= a < axes_for(s).len(),
        0 <= k < axes_for(s)[a].variants.len(),
    ensures
        is_variation(s, axes_for(s)[a].name, axes_for(s)[a].variants[k], k),
{
    let tols = tolerances(s.fit.tolerance, 8);
    let counts = color_counts(s.segment.colors, 10);
    let ax = axes_for(s)[a];
    let p = if s.segment.mode == SegmentMode::Palette {
        3int
    } else {
        0
    };
    if a == 0 {
        assert(ax.variants[k] == with_tolerance(s, tols[k]));
        lemma_tolerance_axis(s, tols[k], k);
    } else if p == 3 && a == 1 {
        assert(ax.variants[k] == with_colors(s, counts[k]));
        lemma_counts_differ(s.segment.colors, 10, k);
        lemma_color_axis(s, counts[k], k);
    } else if p == 3 && a <= 3 {
        lemma_palette_axes(s, k);
    } else if a == p + 1 {
        lemma_corner_axes(s, k);
        assert(ax.variants[k] == with_smoothing(s, smoothing_steps()[k]));
    } else if a == p + 2 {
        lemma_corner_axes(s, k);
        assert(ax.variants[k] == with_threshold(s, threshold_steps()[k]));
    } else if a == p + 3 {
        lemma_last_axes(s, k);
    } else {
        lemma_last_axes(s, k);
        assert(ax.variants[k] == with_despeckle(s, despeckle_steps()[k]));
    }
}

proof fn lemma_counts_differ(colors: usize, k: int, a: int)
    requires
        0 <= k <= 10,
        0 <= a < color_counts(colors, k).len(),
    ensures
        color_counts(colors, k)[a] != colors,
    decreases k,
{
    let s = color_shifts();
    assert(s[0] == -16 && s[1] == -8 && s[2] == -4 && s[3] == -2 && s[4] == -1 && s[5] == 1 && s[6]
        == 2 && s[7] == 4 && s[8] == 8 && s[9] == 16);
    if k > 0 {
        let rest = color_counts(colors, k - 1);
        if a < rest.len() {
            lemma_counts_differ(colors, k - 1, a);
        }
    }
}

/// On hard-edged input every seed traces the pixel grid: its vertices are not moved,
/// nothing is smoothed, and a curve strays a tenth of a pixel at most.
pub proof fn law_hard_edges_are_traced_exactly(p: ImageProfile, k: int)
    requires
        p.pixel_art,
        0 <= k < seed_list(p).len(),
    ensures
        !seed_list(p)[k].settings.subpixel.enabled,
        seed_list(p)[k].settings.corners.smoothing == 0,
        !seed_list(p)[k].settings.corners.noise_adaptive,
        10 * seed_list(p)[k].settings.fit.tolerance <= 1_000_000_000,
{
}

/// As many seeds are tried as are allowed, one at least, and never more than there are.
pub proof fn law_seeds_are_the_first(n: int, max: int)
    requires
        n >= 1,
    ensures
        1 <= seed_count(n, max) <= n,
        max >= 1 ==> seed_count(n, max) <= max,
        seed_count(n, max) < n ==> seed_count(n, max) == max || (max < 1 && seed_count(n, max) == 1),
{
}

/// A palette of many colours starts from a preset for richer pictures: photographs from
/// that for photographs, and of other pictures up to six colours from that for logos, up to
/// sixteen from that for clip art, and more from that for artwork.
pub proof fn law_palettes_start_from_a_fitting_preset(p: ImageProfile, k: usize)
    ensures
        palette_seed(p, k).settings.segment.colors == k,
        palette_seed(p, k).settings.segment.mode == SegmentMode::Palette,
        palette_seed(p, k).label == "palette-"@ + decimal(k as nat),
        p.photographic ==> palette_seed(p, k).settings.fit == preset_settings(Preset::Photo).fit,
        !p.photographic && k < 7 ==> palette_seed(p, k).settings.fit == preset_settings(
            Preset::Logo,
        ).fit,
        !p.photographic && 7 <= k < 17 ==> palette_seed(p, k).settings.fit == preset_settings(
            Preset::Clipart,
        ).fit,
        !p.photographic && k >= 17 ==> palette_seed(p, k).settings.fit == preset_settings(
            Preset::Artwork,
        ).fit,
{
}

} // verus!
