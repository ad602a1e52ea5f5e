//! Tunable parameters for the tracing pipeline, plus named presets.
//!
//! Every knob that materially changes output lives here. The auto-picker works
//! by generating and scoring populations of these, and any result can be
//! reproduced exactly from the config recorded alongside it.
//!
//! Real-valued settings are held in billionths: a tolerance of 0.3 pixels is
//! `300_000_000`.

use crate::color::Rgba8;
use crate::text::{lowercase, lowers_to};
use vstd::prelude::*;

verus! {

/// A real number in units of one billionth.
pub type Billionths = i64;

/// How the image is divided into flat colour regions.
#[derive(Clone, Copy, Debug, PartialEq, Eq, Structural)]
pub enum SegmentMode {
    /// Two regions split at a luminance threshold. Best for line art, scans
    /// and silhouettes.
    Binary,
    /// A fixed number of colours found by clustering.
    Palette,
}

/// Algorithm used to choose the palette.
#[derive(Clone, Copy, Debug, PartialEq, Eq, Structural)]
pub enum PaletteMethod {
    /// Weighted k-means in CIELAB. Slower, but follows the real colour
    /// distribution and is the better choice for most artwork.
    KMeans,
    /// Recursive median cut. Fast and deterministic; tends to preserve
    /// rarely-used accent colours that k-means would merge away.
    MedianCut,
}

/// Default CIELAB radius for matching `SegmentConfig::transparent_colors`.
/// About the size of the difference between white and a very pale tint of it:
/// wide enough to absorb a noisy background, narrow enough not to reach a real
/// light colour.
pub const DEFAULT_TRANSPARENT_TOLERANCE: i64 = 8_000_000_000;

pub struct SegmentConfig {
    pub mode: SegmentMode,
    pub palette_method: PaletteMethod,
    /// Target colour count for `Palette` mode.
    pub colors: usize,
    /// Luminance split for `Binary` mode, in 0..1. `None` selects Otsu.
    pub threshold: Option<Billionths>,
    /// Swap which side of the threshold is treated as ink.
    pub invert: bool,
    /// Pixels at or below this alpha become a transparent region that is
    /// omitted from the output entirely.
    pub alpha_threshold: Billionths,
    /// Colours to leave unpainted, exactly like fully transparent pixels. The
    /// alpha of each entry is ignored.
    pub transparent_colors: Vec<Rgba8>,
    /// How far, in CIELAB distance, a palette colour may sit from one of
    /// `transparent_colors` and still count as it.
    pub transparent_tolerance: Billionths,
    /// Regions smaller than this many pixels are absorbed into their
    /// most-shared neighbour.
    pub despeckle_area: u32,
    /// When building the palette, down-weight pixels that sit on a strong
    /// gradient: anti-aliased edge pixels are mixtures of two real colours.
    pub ignore_edge_pixels: bool,
    /// Iteration cap for k-means.
    pub kmeans_iterations: usize,
    /// Seeds the deterministic PRNG used for k-means++ initialisation, so runs
    /// are reproducible.
    pub seed: u64,
}

/// What a [`SegmentConfig`] says.
pub ghost struct SegmentSettings {
    pub mode: SegmentMode,
    pub palette_method: PaletteMethod,
    pub colors: usize,
    pub threshold: Option<Billionths>,
    pub invert: bool,
    pub alpha_threshold: Billionths,
    pub transparent_colors: Seq<Rgba8>,
    pub transparent_tolerance: Billionths,
    pub despeckle_area: u32,
    pub ignore_edge_pixels: bool,
    pub kmeans_iterations: usize,
    pub seed: u64,
}

impl View for SegmentConfig {
    type V = SegmentSettings;

    open spec fn view(&self) -> SegmentSettings {
        SegmentSettings {
            mode: self.mode,
            palette_method: self.palette_method,
            colors: self.colors,
            threshold: self.threshold,
            invert: self.invert,
            alpha_threshold: self.alpha_threshold,
            transparent_colors: self.transparent_colors@,
            transparent_tolerance: self.transparent_tolerance,
            despeckle_area: self.despeckle_area,
            ignore_edge_pixels: self.ignore_edge_pixels,
            kmeans_iterations: self.kmeans_iterations,
            seed: self.seed,
        }
    }
}

pub open spec fn default_segment() -> SegmentSettings {
    SegmentSettings {
        mode: SegmentMode::Palette,
        palette_method: PaletteMethod::KMeans,
        colors: 8,
        threshold: None,
        invert: false,
        alpha_threshold: 500_000_000,
        transparent_colors: Seq::empty(),
        transparent_tolerance: DEFAULT_TRANSPARENT_TOLERANCE,
        despeckle_area: 4,
        ignore_edge_pixels: true,
        kmeans_iterations: 24,
        seed: 0x5EED,
    }
}

impl Default for SegmentConfig {
    fn default() -> (c: Self)
        ensures
            c@ == default_segment(),
    {
        SegmentConfig {
            mode: SegmentMode::Palette,
            palette_method: PaletteMethod::KMeans,
            colors: 8,
            threshold: None,
            invert: false,
            alpha_threshold: 500_000_000,
            transparent_colors: Vec::new(),
            transparent_tolerance: DEFAULT_TRANSPARENT_TOLERANCE,
            despeckle_area: 4,
            ignore_edge_pixels: true,
            kmeans_iterations: 24,
            seed: 0x5EED,
        }
    }
}

/// Sub-pixel edge reconstruction: reading anti-aliasing to recover where the
/// original mathematical boundary fell.
#[derive(Clone, Copy, Debug, PartialEq, Eq, Structural)]
pub struct SubpixelConfig {
    pub enabled: bool,
    /// How far along the normal, in pixels, to search for the true edge.
    pub search_radius: Billionths,
    /// Hard cap on how far a vertex may move. Keeps a bad local solve from
    /// tearing the contour.
    pub max_shift: Billionths,
    /// Minimum colour separation between the two regions before the solve is
    /// trusted. Below this, the anti-aliasing signal is buried in noise.
    pub min_contrast: Billionths,
    /// Smoothing passes applied to the displacement field along each contour.
    pub smooth_passes: usize,
    /// Solve/re-estimate rounds. Each re-measures the edge orientation from the
    /// previous round's straighter contour.
    pub iterations: usize,
}

pub open spec fn default_subpixel() -> SubpixelConfig {
    SubpixelConfig {
        enabled: true,
        search_radius: 1_500_000_000,
        max_shift: 850_000_000,
        min_contrast: 60_000_000,
        smooth_passes: 1,
        iterations: 3,
    }
}

impl Default for SubpixelConfig {
    fn default() -> (c: Self)
        ensures
            c == default_subpixel(),
    {
        SubpixelConfig {
            enabled: true,
            search_radius: 1_500_000_000,
            max_shift: 850_000_000,
            min_contrast: 60_000_000,
            smooth_passes: 1,
            iterations: 3,
        }
    }
}

/// Separating intentional geometry from compression artefacts and noise.
pub struct CornerConfig {
    /// Turn angle, in degrees, above which a vertex may be a corner.
    pub threshold_deg: Billionths,
    /// Neighbourhood radii, in vertices, at which turn is measured. A true
    /// corner bends at every scale; noise and pixel stair-stepping bend only at
    /// the smallest.
    pub scales: Vec<usize>,
    /// Fraction of scales that must exceed the threshold, in 0..1.
    pub persistence: Billionths,
    /// Minimum spacing between accepted corners, in vertices.
    pub suppress_radius: usize,
    /// Adapt smoothing to locally measured noise instead of applying one
    /// blanket filter to the whole canvas.
    pub noise_adaptive: bool,
    /// Overall smoothing strength in 0..1, applied between corners only.
    pub smoothing: Billionths,
}

/// What a [`CornerConfig`] says.
pub ghost struct CornerSettings {
    pub threshold_deg: Billionths,
    pub scales: Seq<usize>,
    pub persistence: Billionths,
    pub suppress_radius: usize,
    pub noise_adaptive: bool,
    pub smoothing: Billionths,
}

impl View for CornerConfig {
    type V = CornerSettings;

    open spec fn view(&self) -> CornerSettings {
        CornerSettings {
            threshold_deg: self.threshold_deg,
            scales: self.scales@,
            persistence: self.persistence,
            suppress_radius: self.suppress_radius,
            noise_adaptive: self.noise_adaptive,
            smoothing: self.smoothing,
        }
    }
}

pub open spec fn default_corners() -> CornerSettings {
    CornerSettings {
        threshold_deg: 60_000_000_000,
        scales: seq![1usize, 2, 3, 5, 8],
        persistence: 600_000_000,
        suppress_radius: 2,
        noise_adaptive: true,
        smoothing: 500_000_000,
    }
}

impl Default for CornerConfig {
    fn default() -> (c: Self)
        ensures
            c@ == default_corners(),
    {
        let c = CornerConfig {
            threshold_deg: 60_000_000_000,
            scales: vec![1, 2, 3, 5, 8],
            persistence: 600_000_000,
            suppress_radius: 2,
            noise_adaptive: true,
            smoothing: 500_000_000,
        };
        assert(c.scales@ =~= seq![1usize, 2, 3, 5, 8]);
        c
    }
}

/// Curve fitting: turning refined contours into the fewest primitives that
/// still hold the shape.
#[derive(Clone, Copy, Debug, PartialEq, Eq, Structural)]
pub struct FitConfig {
    /// Maximum allowed deviation from the traced contour, in pixels.
    pub tolerance: Billionths,
    /// Try straight lines first. Almost always worth it: a line costs zero
    /// control handles.
    pub allow_lines: bool,
    /// Try circular arcs before falling back to cubics.
    pub allow_arcs: bool,
    /// Emit arcs as SVG `A` commands rather than cubic approximations. More
    /// compact and mathematically exact, but some consumers handle arcs badly.
    pub emit_true_arcs: bool,
    /// Newton-Raphson reparameterisation rounds during cubic fitting.
    pub reparam_iterations: usize,
    /// After fitting, attempt to replace adjacent segment pairs with a single
    /// segment where tolerance still allows.
    pub merge_pass: bool,
    /// Recursion cap for the split-and-refit loop.
    pub max_depth: usize,
}

pub open spec fn default_fit() -> FitConfig {
    FitConfig {
        tolerance: 350_000_000,
        allow_lines: true,
        allow_arcs: true,
        emit_true_arcs: false,
        reparam_iterations: 6,
        merge_pass: true,
        max_depth: 16,
    }
}

impl Default for FitConfig {
    fn default() -> (c: Self)
        ensures
            c == default_fit(),
    {
        FitConfig {
            tolerance: 350_000_000,
            allow_lines: true,
            allow_arcs: true,
            emit_true_arcs: false,
            reparam_iterations: 6,
            merge_pass: true,
            max_depth: 16,
        }
    }
}

#[derive(Clone, Copy, Debug, PartialEq, Eq, Structural)]
pub enum VectorFormat {
    Svg,
    Eps,
    Pdf,
    Dxf,
}

/// The file extension of a format.
pub open spec fn extension_of(f: VectorFormat) -> Seq<char> {
    match f {
        VectorFormat::Svg => "svg"@,
        VectorFormat::Eps => "eps"@,
        VectorFormat::Pdf => "pdf"@,
        VectorFormat::Dxf => "dxf"@,
    }
}

/// The format that a lower-case extension stands for.
pub open spec fn format_named(ext: Seq<char>) -> Option<VectorFormat> {
    if ext == "svg"@ {
        Some(VectorFormat::Svg)
    } else if ext == "eps"@ || ext == "ps"@ {
        Some(VectorFormat::Eps)
    } else if ext == "pdf"@ {
        Some(VectorFormat::Pdf)
    } else if ext == "dxf"@ {
        Some(VectorFormat::Dxf)
    } else {
        None
    }
}

impl VectorFormat {
    pub fn extension(self) -> (s: &'static str)
        ensures
            s@ == extension_of(self),
    {
        match self {
            VectorFormat::Svg => "svg",
            VectorFormat::Eps => "eps",
            VectorFormat::Pdf => "pdf",
            VectorFormat::Dxf => "dxf",
        }
    }

    /// The format for a file extension, in either case; `ps` is EPS too.
    pub fn from_extension(ext: &str) -> (f: Option<Self>)
        ensures
            f == format_named(lowercase(ext@)),
    {
        if lowers_to(ext, "svg") {
            Some(VectorFormat::Svg)
        } else if lowers_to(ext, "eps") || lowers_to(ext, "ps") {
            Some(VectorFormat::Eps)
        } else if lowers_to(ext, "pdf") {
            Some(VectorFormat::Pdf)
        } else if lowers_to(ext, "dxf") {
            Some(VectorFormat::Dxf)
        } else {
            None
        }
    }

    pub fn all() -> (v: [VectorFormat; 4])
        ensures
            v@ == seq![VectorFormat::Svg, VectorFormat::Eps, VectorFormat::Pdf, VectorFormat::Dxf],
    {
        let v = [VectorFormat::Svg, VectorFormat::Eps, VectorFormat::Pdf, VectorFormat::Dxf];
        assert(v@ =~= seq![
            VectorFormat::Svg,
            VectorFormat::Eps,
            VectorFormat::Pdf,
            VectorFormat::Dxf,
        ]);
        v
    }
}

/// A format's own extension stands for it, in any case.
pub proof fn law_extension_round_trips(f: VectorFormat, ext: Seq<char>)
    requires
        lowercase(ext) == extension_of(f),
    ensures
        format_named(lowercase(ext)) == Some(f),
{
    reveal_strlit("svg");
    reveal_strlit("eps");
    reveal_strlit("ps");
    reveal_strlit("pdf");
    reveal_strlit("dxf");
    assert("svg"@[0] == 's' && "eps"@[0] == 'e' && "ps"@.len() == 2 && "pdf"@[0] == 'p' && "dxf"@[0]
        == 'd');
}

#[derive(Clone, Copy, Debug)]
pub struct OutputConfig {
    pub format: VectorFormat,
    /// Decimal places in emitted coordinates. Three is plenty at pixel scale
    /// and keeps files small; shared borders are rounded identically on both
    /// sides so they stay welded.
    pub precision: u32,
    /// Merge all regions sharing a palette colour into one path element.
    pub group_by_color: bool,
    /// Fill each region with its own measured mean colour instead of its
    /// palette entry. Raises fidelity, especially on shaded artwork, at the
    /// cost of producing more distinct colours than the palette asked for.
    pub recolor_regions: bool,
    /// Uniform scale applied on output.
    pub scale: Billionths,
    /// Paint an explicit background rectangle behind everything.
    pub background: Option<Rgba8>,
}

pub open spec fn default_output() -> OutputConfig {
    OutputConfig {
        format: VectorFormat::Svg,
        precision: 3,
        group_by_color: true,
        recolor_regions: false,
        scale: 1_000_000_000,
        background: None,
    }
}

impl Default for OutputConfig {
    fn default() -> (c: Self)
        ensures
            c == default_output(),
    {
        OutputConfig {
            format: VectorFormat::Svg,
            precision: 3,
            group_by_color: true,
            recolor_regions: false,
            scale: 1_000_000_000,
            background: None,
        }
    }
}

pub struct VectorizeConfig {
    pub segment: SegmentConfig,
    pub subpixel: SubpixelConfig,
    pub corners: CornerConfig,
    pub fit: FitConfig,
    pub output: OutputConfig,
}

/// What a [`VectorizeConfig`] says.
pub ghost struct Settings {
    pub segment: SegmentSettings,
    pub subpixel: SubpixelConfig,
    pub corners: CornerSettings,
    pub fit: FitConfig,
    pub output: OutputConfig,
}

impl View for VectorizeConfig {
    type V = Settings;

    open spec fn view(&self) -> Settings {
        Settings {
            segment: self.segment@,
            subpixel: self.subpixel,
            corners: self.corners@,
            fit: self.fit,
            output: self.output,
        }
    }
}

pub open spec fn default_settings() -> Settings {
    Settings {
        segment: default_segment(),
        subpixel: default_subpixel(),
        corners: default_corners(),
        fit: default_fit(),
        output: default_output(),
    }
}

impl Default for VectorizeConfig {
    fn default() -> (c: Self)
        ensures
            c@ == default_settings(),
    {
        VectorizeConfig {
            segment: SegmentConfig::default(),
            subpixel: SubpixelConfig::default(),
            corners: CornerConfig::default(),
            fit: FitConfig::default(),
            output: OutputConfig::default(),
        }
    }
}

/// A copy of a list of colours.
pub fn copy_colors(v: &Vec<Rgba8>) -> (c: Vec<Rgba8>)
    ensures
        c@ == v@,
{
    let mut c: Vec<Rgba8> = Vec::new();
    let mut i: usize = 0;
    while i < v.len()
        invariant
            i <= v@.len(),
            c@ == v@.take(i as int),
        decreases v@.len() - i,
    {
        c.push(v[i]);
        assert(v@.take(i + 1) =~= v@.take(i as int).push(v@[i as int]));
        i = i + 1;
    }
    assert(v@.take(i as int) =~= v@);
    c
}

fn copy_scales(v: &Vec<usize>) -> (c: Vec<usize>)
    ensures
        c@ == v@,
{
    let mut c: Vec<usize> = Vec::new();
    let mut i: usize = 0;
    while i < v.len()
        invariant
            i <= v@.len(),
            c@ == v@.take(i as int),
        decreases v@.len() - i,
    {
        c.push(v[i]);
        assert(v@.take(i + 1) =~= v@.take(i as int).push(v@[i as int]));
        i = i + 1;
    }
    assert(v@.take(i as int) =~= v@);
    c
}

fn same_colors(a: &Vec<Rgba8>, b: &Vec<Rgba8>) -> (same: bool)
    ensures
        same == (a@ == b@),
{
    if a.len() != b.len() {
        return false;
    }
    let mut i: usize = 0;
    while i < a.len()
        invariant
            i <= a@.len(),
            a@.len() == b@.len(),
            forall|j: int| 0 <= j < i ==> #[trigger] a@[j] == b@[j],
        decreases a@.len() - i,
    {
        if a[i] != b[i] {
            assert(a@[i as int] != b@[i as int]);
            return false;
        }
        i = i + 1;
    }
    assert(a@ =~= b@);
    true
}

fn same_scales(a: &Vec<usize>, b: &Vec<usize>) -> (same: bool)
    ensures
        same == (a@ == b@),
{
    if a.len() != b.len() {
        return false;
    }
    let mut i: usize = 0;
    while i < a.len()
        invariant
            i <= a@.len(),
            a@.len() == b@.len(),
            forall|j: int| 0 <= j < i ==> #[trigger] a@[j] == b@[j],
        decreases a@.len() - i,
    {
        if a[i] != b[i] {
            assert(a@[i as int] != b@[i as int]);
            return false;
        }
        i = i + 1;
    }
    assert(a@ =~= b@);
    true
}

fn same_threshold(a: Option<Billionths>, b: Option<Billionths>) -> (same: bool)
    ensures
        same == (a == b),
{
    match (a, b) {
        (Some(x), Some(y)) => x == y,
        (None, None) => true,
        _ => false,
    }
}

fn same_backdrop(a: Option<Rgba8>, b: Option<Rgba8>) -> (same: bool)
    ensures
        same == (a == b),
{
    match (a, b) {
        (Some(x), Some(y)) => x == y,
        (None, None) => true,
        _ => false,
    }
}

impl SegmentConfig {
    fn says(&self, o: &SegmentConfig) -> (same: bool)
        ensures
            same == (self@ == o@),
    {
        self.mode == o.mode && self.palette_method == o.palette_method && self.colors == o.colors
            && same_threshold(self.threshold, o.threshold) && self.invert == o.invert
            && self.alpha_threshold == o.alpha_threshold && same_colors(
            &self.transparent_colors,
            &o.transparent_colors,
        ) && self.transparent_tolerance == o.transparent_tolerance && self.despeckle_area
            == o.despeckle_area && self.ignore_edge_pixels == o.ignore_edge_pixels
            && self.kmeans_iterations == o.kmeans_iterations && self.seed == o.seed
    }
}

impl OutputConfig {
    fn says(&self, o: &OutputConfig) -> (same: bool)
        ensures
            same == (*self == *o),
    {
        self.format == o.format && self.precision == o.precision && self.group_by_color
            == o.group_by_color && self.recolor_regions == o.recolor_regions && self.scale
            == o.scale && same_backdrop(self.background, o.background)
    }
}

impl CornerConfig {
    fn says(&self, o: &CornerConfig) -> (same: bool)
        ensures
            same == (self@ == o@),
    {
        self.threshold_deg == o.threshold_deg && same_scales(&self.scales, &o.scales)
            && self.persistence == o.persistence && self.suppress_radius == o.suppress_radius
            && self.noise_adaptive == o.noise_adaptive && self.smoothing == o.smoothing
    }
}

impl VectorizeConfig {
    /// Whether two configs say the same.
    pub fn says(&self, o: &VectorizeConfig) -> (same: bool)
        ensures
            same == (self@ == o@),
    {
        self.segment.says(&o.segment) && self.subpixel == o.subpixel && self.corners.says(
            &o.corners,
        ) && self.fit == o.fit && self.output.says(&o.output)
    }

    /// A config that says the same.
    pub fn duplicate(&self) -> (c: VectorizeConfig)
        ensures
            c@ == self@,
    {
        VectorizeConfig {
            segment: SegmentConfig {
                mode: self.segment.mode,
                palette_method: self.segment.palette_method,
                colors: self.segment.colors,
                threshold: self.segment.threshold,
                invert: self.segment.invert,
                alpha_threshold: self.segment.alpha_threshold,
                transparent_colors: copy_colors(&self.segment.transparent_colors),
                transparent_tolerance: self.segment.transparent_tolerance,
                despeckle_area: self.segment.despeckle_area,
                ignore_edge_pixels: self.segment.ignore_edge_pixels,
                kmeans_iterations: self.segment.kmeans_iterations,
                seed: self.segment.seed,
            },
            subpixel: self.subpixel,
            corners: CornerConfig {
                threshold_deg: self.corners.threshold_deg,
                scales: copy_scales(&self.corners.scales),
                persistence: self.corners.persistence,
                suppress_radius: self.corners.suppress_radius,
                noise_adaptive: self.corners.noise_adaptive,
                smoothing: self.corners.smoothing,
            },
            fit: self.fit,
            output: self.output,
        }
    }
}

/// Named starting points. The auto-picker seeds its search from these.
#[derive(Clone, Copy, Debug, PartialEq, Eq, Structural)]
pub enum Preset {
    /// Two-tone line art, signatures, stencils.
    BlackAndWhite,
    /// Flat-colour logos with hard edges.
    Logo,
    /// Illustrations and clip art with a moderate palette.
    Clipart,
    /// Detailed artwork with soft shading.
    Artwork,
    /// Photographic input; many colours, smooth everything.
    Photo,
    /// Pixel art and screenshots: preserve hard pixel edges exactly, no
    /// sub-pixel guessing and no smoothing.
    PixelArt,
}

pub open spec fn preset_name(p: Preset) -> Seq<char> {
    match p {
        Preset::BlackAndWhite => "black-and-white"@,
        Preset::Logo => "logo"@,
        Preset::Clipart => "clipart"@,
        Preset::Artwork => "artwork"@,
        Preset::Photo => "photo"@,
        Preset::PixelArt => "pixel-art"@,
    }
}

/// The preset with a given name.
pub open spec fn preset_named(name: Seq<char>) -> Option<Preset> {
    if name == preset_name(Preset::BlackAndWhite) {
        Some(Preset::BlackAndWhite)
    } else if name == preset_name(Preset::Logo) {
        Some(Preset::Logo)
    } else if name == preset_name(Preset::Clipart) {
        Some(Preset::Clipart)
    } else if name == preset_name(Preset::Artwork) {
        Some(Preset::Artwork)
    } else if name == preset_name(Preset::Photo) {
        Some(Preset::Photo)
    } else if name == preset_name(Preset::PixelArt) {
        Some(Preset::PixelArt)
    } else {
        None
    }
}

/// How a preset departs from the defaults.
pub open spec fn preset_settings(p: Preset) -> Settings {
    let d = default_settings();
    match p {
        Preset::BlackAndWhite => Settings {
            segment: SegmentSettings {
                mode: SegmentMode::Binary,
                colors: 2,
                despeckle_area: 6,
                ..d.segment
            },
            fit: FitConfig { tolerance: 300_000_000, ..d.fit },
            ..d
        },
        Preset::Logo => Settings {
            segment: SegmentSettings { colors: 6, despeckle_area: 8, ..d.segment },
            corners: CornerSettings { threshold_deg: 50_000_000_000, ..d.corners },
            fit: FitConfig { tolerance: 300_000_000, ..d.fit },
            ..d
        },
        Preset::Clipart => Settings {
            segment: SegmentSettings { colors: 12, despeckle_area: 5, ..d.segment },
            fit: FitConfig { tolerance: 400_000_000, ..d.fit },
            ..d
        },
        Preset::Artwork => Settings {
            segment: SegmentSettings { colors: 24, despeckle_area: 4, ..d.segment },
            corners: CornerSettings {
                threshold_deg: 70_000_000_000,
                smoothing: 600_000_000,
                ..d.corners
            },
            fit: FitConfig { tolerance: 500_000_000, ..d.fit },
            ..d
        },
        Preset::Photo => Settings {
            segment: SegmentSettings { colors: 48, despeckle_area: 6, ..d.segment },
            corners: CornerSettings {
                threshold_deg: 80_000_000_000,
                smoothing: 750_000_000,
                ..d.corners
            },
            fit: FitConfig { tolerance: 700_000_000, ..d.fit },
            output: OutputConfig { recolor_regions: true, ..d.output },
            ..d
        },
        Preset::PixelArt => Settings {
            segment: SegmentSettings {
                colors: 32,
                despeckle_area: 0,
                ignore_edge_pixels: false,
                ..d.segment
            },
            subpixel: SubpixelConfig { enabled: false, ..d.subpixel },
            corners: CornerSettings {
                threshold_deg: 30_000_000_000,
                smoothing: 0,
                noise_adaptive: false,
                ..d.corners
            },
            fit: FitConfig { tolerance: 50_000_000, allow_arcs: false, ..d.fit },
            ..d
        },
    }
}

impl Preset {
    pub fn name(self) -> (s: &'static str)
        ensures
            s@ == preset_name(self),
    {
        match self {
            Preset::BlackAndWhite => "black-and-white",
            Preset::Logo => "logo",
            Preset::Clipart => "clipart",
            Preset::Artwork => "artwork",
            Preset::Photo => "photo",
            Preset::PixelArt => "pixel-art",
        }
    }

    pub fn all() -> (v: [Preset; 6])
        ensures
            v@ == seq![
                Preset::BlackAndWhite,
                Preset::Logo,
                Preset::Clipart,
                Preset::Artwork,
                Preset::Photo,
                Preset::PixelArt,
            ],
    {
        let v = [
            Preset::BlackAndWhite,
            Preset::Logo,
            Preset::Clipart,
            Preset::Artwork,
            Preset::Photo,
            Preset::PixelArt,
        ];
        assert(v@ =~= seq![
            Preset::BlackAndWhite,
            Preset::Logo,
            Preset::Clipart,
            Preset::Artwork,
            Preset::Photo,
            Preset::PixelArt,
        ]);
        v
    }

    /// The preset of that name, in either case.
    pub fn from_name(s: &str) -> (p: Option<Preset>)
        ensures
            p == preset_named(lowercase(s@)),
    {
        if lowers_to(s, Preset::BlackAndWhite.name()) {
            Some(Preset::BlackAndWhite)
        } else if lowers_to(s, Preset::Logo.name()) {
            Some(Preset::Logo)
        } else if lowers_to(s, Preset::Clipart.name()) {
            Some(Preset::Clipart)
        } else if lowers_to(s, Preset::Artwork.name()) {
            Some(Preset::Artwork)
        } else if lowers_to(s, Preset::Photo.name()) {
            Some(Preset::Photo)
        } else if lowers_to(s, Preset::PixelArt.name()) {
            Some(Preset::PixelArt)
        } else {
            None
        }
    }

    pub fn config(self) -> (c: VectorizeConfig)
        ensures
            c@ == preset_settings(self),
    {
        let mut c: VectorizeConfig = VectorizeConfig::default();
        match self {
            Preset::BlackAndWhite => {
                c.segment.mode = SegmentMode::Binary;
                c.segment.colors = 2;
                c.segment.despeckle_area = 6;
                c.fit.tolerance = 300_000_000;
            },
            Preset::Logo => {
                c.segment.colors = 6;
                c.segment.despeckle_area = 8;
                c.corners.threshold_deg = 50_000_000_000;
                c.fit.tolerance = 300_000_000;
            },
            Preset::Clipart => {
                c.segment.colors = 12;
                c.segment.despeckle_area = 5;
                c.fit.tolerance = 400_000_000;
            },
            Preset::Artwork => {
                c.segment.colors = 24;
                c.segment.despeckle_area = 4;
                c.corners.threshold_deg = 70_000_000_000;
                c.corners.smoothing = 600_000_000;
                c.fit.tolerance = 500_000_000;
            },
            Preset::Photo => {
                c.segment.colors = 48;
                c.segment.despeckle_area = 6;
                c.corners.threshold_deg = 80_000_000_000;
                c.corners.smoothing = 750_000_000;
                c.fit.tolerance = 700_000_000;
                // Photographs have no flat palette to be faithful to, so
                // per-region colour is pure fidelity gain here.
                c.output.recolor_regions = true;
            },
            Preset::PixelArt => {
                // Every pixel edge here is intentional. Turning off sub-pixel
                // reconstruction and smoothing, and demanding a tight
                // tolerance, reproduces the blocks exactly.
                c.segment.colors = 32;
                c.segment.despeckle_area = 0;
                c.segment.ignore_edge_pixels = false;
                c.subpixel.enabled = false;
                c.corners.threshold_deg = 30_000_000_000;
                c.corners.smoothing = 0;
                c.corners.noise_adaptive = false;
                c.fit.tolerance = 50_000_000;
                c.fit.allow_arcs = false;
            },
        }
        c
    }
}

/// A preset is found by its own name.
pub proof fn law_preset_name_round_trips(p: Preset)
    ensures
        preset_named(preset_name(p)) == Some(p),
        lowercase(preset_name(p)) == preset_name(p),
{
    reveal_strlit("black-and-white");
    reveal_strlit("logo");
    reveal_strlit("clipart");
    reveal_strlit("artwork");
    reveal_strlit("photo");
    reveal_strlit("pixel-art");
    assert(preset_name(Preset::Clipart)[0] == 'c');
    assert(preset_name(Preset::Artwork)[0] == 'a');
    assert(lowercase(preset_name(p)) =~= preset_name(p));
}

} // verus!
