//! What the command line asks for, applied to a preset.

use crate::color::{bare_digits, parsed_digits, Rgba8};
use crate::config::{
    copy_colors, format_named, preset_settings, Billionths, CornerConfig, CornerSettings, FitConfig,
    OutputConfig, PaletteMethod, Preset, SegmentConfig, SegmentMode, SegmentSettings, Settings,
    SubpixelConfig, VectorFormat, VectorizeConfig,
};
use crate::text::{lowercase, push_text};
use vstd::prelude::*;

verus! {

/// A string as `{:?}` writes it: in double quotes, with special characters
/// escaped.
pub uninterp spec fn quoted(s: Seq<char>) -> Seq<char>;

/// `format!("{:?}", ..)` on a string, that is `Debug::fmt` for `str`. The
/// notation depends on the string alone; nothing more is claimed of it.
#[verifier::external_body]
fn quote(s: &str) -> (q: String)
    ensures
        q@ == quoted(s@),
{
    format!("{:?}", s)
}

/// What a colour that cannot be read is answered with, around its quotation.
pub open spec fn not_a_color(quotation: Seq<char>) -> Seq<char> {
    quotation + " is not a colour; use #rrggbb or #rgb"@
}

/// The answer to a colour that cannot be read.
pub fn color_error(quotation: &str) -> (s: String)
    ensures
        s@ == not_a_color(quotation@),
{
    let mut s: String = String::new();
    push_text(&mut s, quotation);
    push_text(&mut s, " is not a colour; use #rrggbb or #rgb");
    assert(s@ =~= not_a_color(quotation@));
    s
}

/// Read a colour given on the command line.
pub fn parse_color(s: &str) -> (r: Result<Rgba8, String>)
    ensures
        match parsed_digits(bare_digits(s@)) {
            Some(c) => r == Ok::<Rgba8, String>(c),
            None => r matches Err(e) && e@ == not_a_color(quoted(s@)),
        },
{
    match Rgba8::from_hex(s) {
        Some(c) => Ok(c),
        None => {
            let q: String = quote(s);
            Err(color_error(q.as_str()))
        },
    }
}

/// What a path without a known extension is answered with, around its
/// quotation.
pub open spec fn no_format(quotation: Seq<char>) -> Seq<char> {
    "cannot infer a vector format from "@ + quotation + "; use .svg, .eps, .pdf or .dxf"@
}

/// The answer to a path without a known extension.
pub fn format_error(quotation: &str) -> (s: String)
    ensures
        s@ == no_format(quotation@),
{
    let mut s: String = String::new();
    push_text(&mut s, "cannot infer a vector format from ");
    push_text(&mut s, quotation);
    push_text(&mut s, "; use .svg, .eps, .pdf or .dxf");
    assert(s@ =~= no_format(quotation@));
    s
}

/// The format that a file is written in whose path is quoted as `quotation` and
/// whose extension is `ext`. A path without an extension counts as one with an empty
/// extension.
pub fn format_for(quotation: &str, ext: Option<&str>) -> (r: Result<VectorFormat, String>)
    ensures
        ({
            let name = match ext {
                Some(e) => lowercase(e@),
                None => lowercase(""@),
            };
            match format_named(name) {
                Some(f) => r == Ok::<VectorFormat, String>(f),
                None => r matches Err(e) && e@ == no_format(quotation@),
            }
        }),
{
    let name: &str = match ext {
        Some(e) => e,
        None => "",
    };
    match VectorFormat::from_extension(name) {
        Some(f) => Ok(f),
        None => Err(format_error(quotation)),
    }
}

/// Settings given on the command line; `None` keeps the preset's.
pub struct TuningArgs {
    pub preset: Preset,
    pub colors: Option<usize>,
    /// Two-tone output, split at a luminance threshold.
    pub binary: bool,
    pub threshold: Option<Billionths>,
    pub tolerance: Option<Billionths>,
    pub smoothing: Option<Billionths>,
    pub corner_threshold: Option<Billionths>,
    pub despeckle: Option<u32>,
    pub palette: Option<PaletteMethod>,
    pub no_subpixel: bool,
    pub true_arcs: bool,
    pub no_arcs: bool,
    pub recolor: bool,
    pub no_group: bool,
    pub scale: Billionths,
    pub precision: u32,
    pub transparent: Vec<Rgba8>,
    pub transparent_tolerance: Billionths,
}

pub open spec fn or_else<T>(given: Option<T>, preset: T) -> T {
    match given {
        Some(v) => v,
        None => preset,
    }
}

/// `v` moved into 0..1.
pub open spec fn unit(v: Billionths) -> Billionths {
    if v < 0 {
        0
    } else if v > 1_000_000_000 {
        1_000_000_000
    } else {
        v
    }
}

fn to_unit(v: Billionths) -> (u: Billionths)
    ensures
        u == unit(v),
{
    if v < 0 {
        0
    } else if v > 1_000_000_000 {
        1_000_000_000
    } else {
        v
    }
}

impl TuningArgs {
    /// The segmentation that the arguments make of `base`.
    pub open spec fn segment(&self, base: SegmentSettings) -> SegmentSettings {
        SegmentSettings {
            mode: if self.binary {
                SegmentMode::Binary
            } else if self.colors is Some {
                SegmentMode::Palette
            } else {
                base.mode
            },
            colors: match self.colors {
                Some(k) => if k < 2 {
                    2
                } else {
                    k
                },
                None => base.colors,
            },
            threshold: match self.threshold {
                Some(t) => Some(t),
                None => base.threshold,
            },
            despeckle_area: or_else(self.despeckle, base.despeckle_area),
            palette_method: or_else(self.palette, base.palette_method),
            transparent_colors: self.transparent@,
            transparent_tolerance: self.transparent_tolerance,
            ..base
        }
    }

    /// The corner detection that the arguments make of `base`.
    pub open spec fn corners(&self, base: CornerSettings) -> CornerSettings {
        CornerSettings {
            smoothing: match self.smoothing {
                Some(s) => unit(s),
                None => base.smoothing,
            },
            threshold_deg: or_else(self.corner_threshold, base.threshold_deg),
            ..base
        }
    }

    /// The fitting that the arguments make of `base`.
    pub open spec fn fit(&self, base: FitConfig) -> FitConfig {
        FitConfig {
            tolerance: or_else(self.tolerance, base.tolerance),
            allow_arcs: (base.allow_arcs || self.true_arcs) && !self.no_arcs,
            emit_true_arcs: base.emit_true_arcs || self.true_arcs,
            ..base
        }
    }

    /// The settings that the arguments make of the preset they start from.
    pub open spec fn settings(&self, format: VectorFormat) -> Settings {
        let base = preset_settings(self.preset);
        Settings {
            segment: self.segment(base.segment),
            subpixel: SubpixelConfig {
                enabled: base.subpixel.enabled && !self.no_subpixel,
                ..base.subpixel
            },
            corners: self.corners(base.corners),
            fit: self.fit(base.fit),
            output: OutputConfig {
                recolor_regions: self.recolor,
                group_by_color: !self.no_group,
                scale: self.scale,
                precision: self.precision,
                format,
                ..base.output
            },
        }
    }

    fn tune_segment(&self, c: &mut SegmentConfig)
        ensures
            final(c)@ == self.segment(old(c)@),
    {
        c.transparent_colors = copy_colors(&self.transparent);
        c.transparent_tolerance = self.transparent_tolerance;
        if self.binary {
            c.mode = SegmentMode::Binary;
        }
        if let Some(k) = self.colors {
            c.colors = if k < 2 {
                2
            } else {
                k
            };
            if !self.binary {
                c.mode = SegmentMode::Palette;
            }
        }
        if let Some(t) = self.threshold {
            c.threshold = Some(t);
        }
        if let Some(d) = self.despeckle {
            c.despeckle_area = d;
        }
        if let Some(p) = self.palette {
            c.palette_method = p;
        }
    }

    fn tune_corners(&self, c: &mut CornerConfig)
        ensures
            final(c)@ == self.corners(old(c)@),
    {
        if let Some(s) = self.smoothing {
            c.smoothing = to_unit(s);
        }
        if let Some(d) = self.corner_threshold {
            c.threshold_deg = d;
        }
    }

    fn tune_fit(&self, c: &mut FitConfig)
        ensures
            *final(c) == self.fit(*old(c)),
    {
        if let Some(t) = self.tolerance {
            c.tolerance = t;
        }
        if self.true_arcs {
            c.allow_arcs = true;
            c.emit_true_arcs = true;
        }
        if self.no_arcs {
            c.allow_arcs = false;
        }
    }

    /// Apply the arguments to the preset they start from.
    pub fn build(&self, format: VectorFormat) -> (c: VectorizeConfig)
        ensures
            c@ == self.settings(format),
    {
        let mut c: VectorizeConfig = self.preset.config();
        self.tune_segment(&mut c.segment);
        self.tune_corners(&mut c.corners);
        self.tune_fit(&mut c.fit);
        c.subpixel.enabled = c.subpixel.enabled && !self.no_subpixel;
        c.output.recolor_regions = self.recolor;
        c.output.group_by_color = !self.no_group;
        c.output.scale = self.scale;
        c.output.precision = self.precision;
        c.output.format = format;
        c
    }
}

/// The colours to leave unpainted are what was asked for, whatever the preset;
/// none unless asked.
pub proof fn law_only_requested_colors_are_keyed(args: TuningArgs, format: VectorFormat)
    ensures
        args.settings(format).segment.transparent_colors == args.transparent@,
        args.settings(format).segment.transparent_tolerance == args.transparent_tolerance,
{
}

/// What is given goes before the preset, and what is not given is the preset's.
pub proof fn law_arguments_go_before_the_preset(args: TuningArgs, format: VectorFormat)
    ensures
        ({
            let s = args.settings(format);
            let base = preset_settings(args.preset);
            &&& args.tolerance matches Some(t) ==> s.fit.tolerance == t
            &&& args.tolerance is None ==> s.fit.tolerance == base.fit.tolerance
            &&& args.corner_threshold matches Some(t) ==> s.corners.threshold_deg == t
            &&& args.corner_threshold is None ==> s.corners.threshold_deg
                == base.corners.threshold_deg
            &&& args.smoothing matches Some(v) ==> 0 <= s.corners.smoothing <= 1_000_000_000 && (0
                <= v <= 1_000_000_000 ==> s.corners.smoothing == v) && (v < 0
                ==> s.corners.smoothing == 0) && (v > 1_000_000_000 ==> s.corners.smoothing
                == 1_000_000_000)
            &&& args.smoothing is None ==> s.corners.smoothing == base.corners.smoothing
            &&& args.despeckle matches Some(d) ==> s.segment.despeckle_area == d
            &&& args.despeckle is None ==> s.segment.despeckle_area == base.segment.despeckle_area
            &&& args.threshold is Some ==> s.segment.threshold == args.threshold
            &&& args.threshold is None ==> s.segment.threshold == base.segment.threshold
            &&& args.palette matches Some(m) ==> s.segment.palette_method == m
            &&& args.palette is None ==> s.segment.palette_method == base.segment.palette_method
            &&& s.output.scale == args.scale
            &&& s.output.precision == args.precision
            &&& s.output.format == format
        }),
{
}

/// Two tones are traced where that is asked for, whatever number of colours is; else a number
/// of colours asks for a palette, of two at least. A switch that turns something off leaves
/// it off, whatever turns it on.
pub proof fn law_switches_have_the_last_word(args: TuningArgs, format: VectorFormat)
    ensures
        ({
            let s = args.settings(format);
            let base = preset_settings(args.preset);
            &&& args.binary ==> s.segment.mode == SegmentMode::Binary
            &&& !args.binary && args.colors is Some ==> s.segment.mode == SegmentMode::Palette
            &&& !args.binary && args.colors is None ==> s.segment.mode == base.segment.mode
            &&& args.colors matches Some(k) ==> s.segment.colors >= 2 && (k >= 2
                ==> s.segment.colors == k) && (k < 2 ==> s.segment.colors == 2)
            &&& args.colors is None ==> s.segment.colors == base.segment.colors
            &&& args.no_arcs ==> !s.fit.allow_arcs
            &&& args.true_arcs && !args.no_arcs ==> s.fit.allow_arcs && s.fit.emit_true_arcs
            &&& !args.true_arcs ==> s.fit.emit_true_arcs == base.fit.emit_true_arcs
            &&& !args.true_arcs && !args.no_arcs ==> s.fit.allow_arcs == base.fit.allow_arcs
            &&& args.no_subpixel ==> !s.subpixel.enabled
            &&& !args.no_subpixel ==> s.subpixel == base.subpixel
            &&& s.output.recolor_regions <==> args.recolor
            &&& s.output.group_by_color <==> !args.no_group
        }),
{
}

} // verus!
