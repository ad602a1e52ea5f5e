//! Choosing a palette for an image.

use crate::centres::{
    fewer, is_cut_palette, is_outcome, kmeans_palette, median_cut_palette, points_at, seeds,
};
use crate::cluster::{below, is_best_split, AxisKeys};
use crate::color::Rgba8;
use crate::config::{Billionths, PaletteMethod, SegmentConfig, SegmentMode};
use crate::filter::{around, flatness_weights, Around};
use crate::pure::{call1, call2, pure1, pure2, pure3, pure4, value1, value2};
use crate::quantize::{
    finish_palette, is_finished, is_sample, law_keying_only_flags, lemma_sample_in_range,
    painted_entry, populated, rng_seeded, rng_step, sample_pixels, Palette, PaletteEntry, Rng,
};
use crate::raster::Raster;
use crate::twotone::{histogram_of, otsu_threshold, side_sum, two_tones};
use vstd::prelude::*;

verus! {

/// About how many pixels are clustered.
pub const SAMPLE_LIMIT: usize = 40_000;

/// What splitting an image into two tones asks of the numbers: `bin` and
/// `variance` are those of [`otsu_threshold`], `given` makes a level of a threshold
/// that was asked for and `found` of the one that Otsu's method gives, and the
/// others are those of [`two_tones`].
pub struct ToneCalls<A, FB, FQ, FG, FO, FH, FP, FF> {
    pub bin: FB,
    pub variance: FQ,
    pub given: FG,
    pub found: FO,
    pub light: FH,
    pub plus: FP,
    pub finish: FF,
    pub zero: A,
}

/// What clustering asks of the numbers. `flat` says how much a pixel counts, by the
/// pixels around it, and `full` is how much one counts in a flat area. `point` makes
/// a point of a pixel and its weight; `lab` is where a point is, and `axes` orders
/// points along each axis. `mean` and `settle` make a centre of a sum, where it
/// weighs anything and in any case. `color` paints a centre. The others are those of
/// [`kmeans_palette`] and [`median_cut_palette`].
pub struct ClusterCalls<Z, T, B, HW, HX, HL, HK, HD, HM, HH, HA, HS, HE, HP, HF, HG, HN, HC> {
    pub flat: HW,
    pub full: Z,
    pub point: HX,
    pub lab: HL,
    pub axes: HK,
    pub dist: HD,
    pub weigh: HM,
    pub heavy: HH,
    pub aim: HA,
    pub spend: HS,
    pub spent: HE,
    pub none: T,
    pub plus: HP,
    pub zero: B,
    pub mean: HF,
    pub gap: HG,
    pub settle: HN,
    pub floor: u32,
    pub color: HC,
}

/// The callbacks are functions.
pub open spec fn tone_calls_ok<
    C,
    L,
    V,
    A,
    FB: Fn(C) -> Option<u8>,
    FQ: Fn(u64, u64, u64, u64) -> u64,
    FG: Fn(Billionths) -> V,
    FO: Fn(Option<usize>) -> V,
    FH: Fn(V, C) -> bool,
    FP: Fn(A, C) -> A,
    FF: Fn(A, bool) -> (Rgba8, L),
>(t: ToneCalls<A, FB, FQ, FG, FO, FH, FP, FF>) -> bool {
    &&& pure1(t.bin)
    &&& pure4(t.variance)
    &&& pure1(t.given)
    &&& pure1(t.found)
    &&& pure2(t.light)
    &&& pure2(t.plus)
    &&& pure2(t.finish)
}

/// The callbacks are functions.
pub open spec fn cluster_calls_ok<
    C,
    L,
    Z,
    X,
    T,
    B,
    HW: Fn(Around<C>) -> Z,
    HX: Fn(C, Z) -> X,
    HL: Fn(X) -> L,
    HK: Fn(X) -> AxisKeys,
    HD: Fn(X, L) -> u32,
    HM: Fn(T, u32, X) -> T,
    HH: Fn(T) -> bool,
    HA: Fn(T, u64) -> T,
    HS: Fn(T, u32, X) -> T,
    HE: Fn(T) -> bool,
    HP: Fn(B, X) -> B,
    HF: Fn(B) -> Option<L>,
    HG: Fn(usize, AxisKeys, AxisKeys) -> u32,
    HN: Fn(B) -> L,
    HC: Fn(L) -> Rgba8,
>(q: ClusterCalls<Z, T, B, HW, HX, HL, HK, HD, HM, HH, HA, HS, HE, HP, HF, HG, HN, HC>) -> bool {
    &&& pure1(q.flat)
    &&& pure2(q.point)
    &&& pure1(q.lab)
    &&& pure1(q.axes)
    &&& pure2(q.dist)
    &&& pure3(q.weigh)
    &&& pure1(q.heavy)
    &&& pure2(q.aim)
    &&& pure3(q.spend)
    &&& pure1(q.spent)
    &&& pure2(q.plus)
    &&& pure1(q.mean)
    &&& pure3(q.gap)
    &&& pure1(q.settle)
    &&& pure1(q.color)
}

/// Which pixels are opaque.
pub open spec fn opacity<C, FA: Fn(C) -> bool>(clear: FA, data: Seq<C>) -> Seq<bool> {
    Seq::new(data.len(), |i: int| !value1(clear, data[i]))
}

/// Whether any pixel is transparent.
pub open spec fn any_clear<C, FA: Fn(C) -> bool>(clear: FA, data: Seq<C>) -> bool {
    exists|k: int| 0 <= k < data.len() && value1(clear, #[trigger] data[k])
}

/// How many colours are clustered: never fewer than two.
pub open spec fn wanted(colors: usize) -> usize {
    if colors < 2 {
        2
    } else {
        colors
    }
}

/// One painted entry for each centre.
pub open spec fn entries_of<L, FC: Fn(L) -> Rgba8>(color: FC, centres: Seq<L>) -> Seq<
    PaletteEntry<L>,
> {
    Seq::new(centres.len(), |i: int| painted_entry(value1(color, centres[i]), centres[i]))
}

/// `level` splits the tones: the threshold that was asked for, or the one that
/// Otsu's method gives.
pub open spec fn is_level<
    C,
    L,
    V,
    A,
    FB: Fn(C) -> Option<u8>,
    FQ: Fn(u64, u64, u64, u64) -> u64,
    FG: Fn(Billionths) -> V,
    FO: Fn(Option<usize>) -> V,
    FH: Fn(V, C) -> bool,
    FP: Fn(A, C) -> A,
    FF: Fn(A, bool) -> (Rgba8, L),
>(t: ToneCalls<A, FB, FQ, FG, FO, FH, FP, FF>, data: Seq<C>, cfg: SegmentConfig, level: V) -> bool {
    match cfg.threshold {
        Some(b) => level == value1(t.given, b),
        None => {
            let hist = histogram_of(t.bin, data, data.len() as int);
            exists|split: Option<usize>|
                {
                    &&& level == #[trigger] value1(t.found, split)
                    &&& split is None <==> below(hist, 255) == 0
                    &&& split matches Some(s) ==> s < 256 && is_best_split(
                        hist,
                        t.variance,
                        256,
                        s as int,
                    )
                }
        },
    }
}

/// The entries either side of `level`, the dark one first, or last where the two
/// are swapped.
pub open spec fn tones_at<
    C,
    L,
    V,
    A,
    FA: Fn(C) -> bool,
    FB: Fn(C) -> Option<u8>,
    FQ: Fn(u64, u64, u64, u64) -> u64,
    FG: Fn(Billionths) -> V,
    FO: Fn(Option<usize>) -> V,
    FH: Fn(V, C) -> bool,
    FP: Fn(A, C) -> A,
    FF: Fn(A, bool) -> (Rgba8, L),
>(
    clear: FA,
    t: ToneCalls<A, FB, FQ, FG, FO, FH, FP, FF>,
    data: Seq<C>,
    invert: bool,
    level: V,
) -> Seq<PaletteEntry<L>> {
    let n = data.len() as int;
    let dark = value2(
        t.finish,
        side_sum(clear, t.light, level, t.plus, t.zero, data, false, n),
        false,
    );
    let bright = value2(
        t.finish,
        side_sum(clear, t.light, level, t.plus, t.zero, data, true, n),
        true,
    );
    if invert {
        seq![painted_entry(bright.0, bright.1), painted_entry(dark.0, dark.1)]
    } else {
        seq![painted_entry(dark.0, dark.1), painted_entry(bright.0, bright.1)]
    }
}

/// How much pixel `i` counts.
pub open spec fn pixel_weight<C, Z, HW: Fn(Around<C>) -> Z>(
    flat: HW,
    full: Z,
    img: Raster<C>,
    ignore_edges: bool,
    i: int,
) -> Z {
    if ignore_edges && img.width >= 3 && img.height >= 3 {
        value1(flat, around(img, i % (img.width as int), i / (img.width as int)))
    } else {
        full
    }
}

/// The picked pixels as points.
pub open spec fn points_of<C, Z, X, HW: Fn(Around<C>) -> Z, HX: Fn(C, Z) -> X>(
    flat: HW,
    full: Z,
    point: HX,
    img: Raster<C>,
    ignore_edges: bool,
    picked: Seq<usize>,
) -> Seq<X> {
    Seq::new(
        picked.len(),
        |k: int|
            value2(
                point,
                img.data@[picked[k] as int],
                pixel_weight(flat, full, img, ignore_edges, picked[k] as int),
            ),
    )
}

pub open spec fn mapped<X, Y, F: Fn(X) -> Y>(f: F, s: Seq<X>) -> Seq<Y> {
    Seq::new(s.len(), |i: int| value1(f, s[i]))
}

/// `centres` are what the chosen method makes of the points.
pub open spec fn are_centres<
    C,
    L,
    Z,
    X,
    T,
    B,
    HW: Fn(Around<C>) -> Z,
    HX: Fn(C, Z) -> X,
    HL: Fn(X) -> L,
    HK: Fn(X) -> AxisKeys,
    HD: Fn(X, L) -> u32,
    HM: Fn(T, u32, X) -> T,
    HH: Fn(T) -> bool,
    HA: Fn(T, u64) -> T,
    HS: Fn(T, u32, X) -> T,
    HE: Fn(T) -> bool,
    HP: Fn(B, X) -> B,
    HF: Fn(B) -> Option<L>,
    HG: Fn(usize, AxisKeys, AxisKeys) -> u32,
    HN: Fn(B) -> L,
    HC: Fn(L) -> Rgba8,
>(
    q: ClusterCalls<Z, T, B, HW, HX, HL, HK, HD, HM, HH, HA, HS, HE, HP, HF, HG, HN, HC>,
    cfg: SegmentConfig,
    pts: Seq<X>,
    centres: Seq<L>,
) -> bool {
    let k = wanted(cfg.colors) as int;
    let labs = mapped(q.lab, pts);
    if pts.len() == 0 {
        centres.len() == 0
    } else {
        match cfg.palette_method {
            PaletteMethod::KMeans => is_outcome(
                pts,
                points_at(
                    labs,
                    seeds(
                        q.dist,
                        q.weigh,
                        q.heavy,
                        q.aim,
                        q.spend,
                        q.spent,
                        q.none,
                        pts,
                        labs,
                        fewer(k, pts.len() as int),
                        rng_step(rng_seeded(cfg.seed)),
                    ).0,
                ),
                cfg.kmeans_iterations as int,
                q.dist,
                q.zero,
                q.plus,
                q.mean,
                centres,
            ),
            PaletteMethod::MedianCut => is_cut_palette(
                pts,
                mapped(q.axes, pts),
                q.gap,
                q.plus,
                q.settle,
                q.zero,
                k,
                q.floor,
                centres,
            ),
        }
    }
}

/// `centres` come of a sample of the opaque pixels.
pub open spec fn are_sampled_centres<
    C,
    L,
    Z,
    X,
    T,
    B,
    FA: Fn(C) -> bool,
    HW: Fn(Around<C>) -> Z,
    HX: Fn(C, Z) -> X,
    HL: Fn(X) -> L,
    HK: Fn(X) -> AxisKeys,
    HD: Fn(X, L) -> u32,
    HM: Fn(T, u32, X) -> T,
    HH: Fn(T) -> bool,
    HA: Fn(T, u64) -> T,
    HS: Fn(T, u32, X) -> T,
    HE: Fn(T) -> bool,
    HP: Fn(B, X) -> B,
    HF: Fn(B) -> Option<L>,
    HG: Fn(usize, AxisKeys, AxisKeys) -> u32,
    HN: Fn(B) -> L,
    HC: Fn(L) -> Rgba8,
>(
    clear: FA,
    q: ClusterCalls<Z, T, B, HW, HX, HL, HK, HD, HM, HH, HA, HS, HE, HP, HF, HG, HN, HC>,
    img: Raster<C>,
    cfg: SegmentConfig,
    picked: Seq<usize>,
    centres: Seq<L>,
) -> bool {
    &&& is_sample(
        opacity(clear, img.data@),
        SAMPLE_LIMIT as int,
        rng_seeded(cfg.seed),
        picked,
    )
    &&& are_centres(
        q,
        cfg,
        points_of(q.flat, q.full, q.point, img, cfg.ignore_edge_pixels, picked),
        centres,
    )
}

/// `entries` are those that the settings ask for.
pub open spec fn are_entries<
    C,
    L,
    V,
    A,
    Z,
    X,
    T,
    B,
    FA: Fn(C) -> bool,
    FB: Fn(C) -> Option<u8>,
    FQ: Fn(u64, u64, u64, u64) -> u64,
    FG: Fn(Billionths) -> V,
    FO: Fn(Option<usize>) -> V,
    FH: Fn(V, C) -> bool,
    FP: Fn(A, C) -> A,
    FF: Fn(A, bool) -> (Rgba8, L),
    HW: Fn(Around<C>) -> Z,
    HX: Fn(C, Z) -> X,
    HL: Fn(X) -> L,
    HK: Fn(X) -> AxisKeys,
    HD: Fn(X, L) -> u32,
    HM: Fn(T, u32, X) -> T,
    HH: Fn(T) -> bool,
    HA: Fn(T, u64) -> T,
    HS: Fn(T, u32, X) -> T,
    HE: Fn(T) -> bool,
    HP: Fn(B, X) -> B,
    HF: Fn(B) -> Option<L>,
    HG: Fn(usize, AxisKeys, AxisKeys) -> u32,
    HN: Fn(B) -> L,
    HC: Fn(L) -> Rgba8,
>(
    clear: FA,
    t: ToneCalls<A, FB, FQ, FG, FO, FH, FP, FF>,
    q: ClusterCalls<Z, T, B, HW, HX, HL, HK, HD, HM, HH, HA, HS, HE, HP, HF, HG, HN, HC>,
    img: Raster<C>,
    cfg: SegmentConfig,
    entries: Seq<PaletteEntry<L>>,
) -> bool {
    match cfg.mode {
        SegmentMode::Binary => exists|level: V| #[trigger]
            is_level(t, img.data@, cfg, level) && entries == tones_at(
                clear,
                t,
                img.data@,
                cfg.invert,
                level,
            ),
        SegmentMode::Palette => exists|picked: Seq<usize>, centres: Seq<L>| #[trigger]
            are_sampled_centres(clear, q, img, cfg, picked, centres) && entries == entries_of(
                q.color,
                centres,
            ),
    }
}

/// Both tones and every centre are painted opaque.
pub open spec fn paints_opaque<
    L,
    A,
    FF: Fn(A, bool) -> (Rgba8, L),
    HC: Fn(L) -> Rgba8,
>(finish: FF, color: HC) -> bool {
    &&& forall|sum: A, side: bool| (#[trigger] value2(finish, sum, side)).0.a == 255
    &&& forall|lab: L| (#[trigger] value1(color, lab)).a == 255
}

/// How many entries there may be: two tones, or as many colours as are clustered.
pub open spec fn entry_count_ok(cfg: SegmentConfig, n: int) -> bool {
    match cfg.mode {
        SegmentMode::Binary => n == 2,
        SegmentMode::Palette => 1 <= n <= wanted(cfg.colors),
    }
}

/// `palette` is the one that the settings ask for.
pub open spec fn is_palette<
    C,
    L,
    V,
    A,
    Z,
    X,
    T,
    B,
    FA: Fn(C) -> bool,
    FB: Fn(C) -> Option<u8>,
    FQ: Fn(u64, u64, u64, u64) -> u64,
    FG: Fn(Billionths) -> V,
    FO: Fn(Option<usize>) -> V,
    FH: Fn(V, C) -> bool,
    FP: Fn(A, C) -> A,
    FF: Fn(A, bool) -> (Rgba8, L),
    HW: Fn(Around<C>) -> Z,
    HX: Fn(C, Z) -> X,
    HL: Fn(X) -> L,
    HK: Fn(X) -> AxisKeys,
    HD: Fn(X, L) -> u32,
    HM: Fn(T, u32, X) -> T,
    HH: Fn(T) -> bool,
    HA: Fn(T, u64) -> T,
    HS: Fn(T, u32, X) -> T,
    HE: Fn(T) -> bool,
    HP: Fn(B, X) -> B,
    HF: Fn(B) -> Option<L>,
    HG: Fn(usize, AxisKeys, AxisKeys) -> u32,
    HN: Fn(B) -> L,
    HC: Fn(L) -> Rgba8,
    FL: Fn(Rgba8) -> L,
    FN: Fn(L, L) -> bool,
>(
    clear: FA,
    t: ToneCalls<A, FB, FQ, FG, FO, FH, FP, FF>,
    q: ClusterCalls<Z, T, B, HW, HX, HL, HK, HD, HM, HH, HA, HS, HE, HP, HF, HG, HN, HC>,
    lab_of: FL,
    near: FN,
    img: Raster<C>,
    cfg: SegmentConfig,
    black: L,
    palette: Palette<L>,
) -> bool {
    exists|entries: Seq<PaletteEntry<L>>|
        #[trigger] are_entries(clear, t, q, img, cfg, entries) && is_finished(
            lab_of,
            near,
            entries,
            cfg.transparent_colors@,
            any_clear(clear, img.data@),
            black,
            palette,
        )
}

/// Build the palette for an image according to the segmentation settings.
/// `clear` tells whether a pixel counts as transparent, `lab_of` places a key
/// colour, and `near` tells whether an entry is within reach of one.
pub fn build_palette<
    C: Copy,
    L: Copy,
    V: Copy,
    A: Copy,
    Z: Copy,
    X: Copy,
    T: Copy,
    B: Copy,
    FA: Fn(C) -> bool,
    FB: Fn(C) -> Option<u8>,
    FQ: Fn(u64, u64, u64, u64) -> u64,
    FG: Fn(Billionths) -> V,
    FO: Fn(Option<usize>) -> V,
    FH: Fn(V, C) -> bool,
    FP: Fn(A, C) -> A,
    FF: Fn(A, bool) -> (Rgba8, L),
    HW: Fn(Around<C>) -> Z,
    HX: Fn(C, Z) -> X,
    HL: Fn(X) -> L,
    HK: Fn(X) -> AxisKeys,
    HD: Fn(X, L) -> u32,
    HM: Fn(T, u32, X) -> T,
    HH: Fn(T) -> bool,
    HA: Fn(T, u64) -> T,
    HS: Fn(T, u32, X) -> T,
    HE: Fn(T) -> bool,
    HP: Fn(B, X) -> B,
    HF: Fn(B) -> Option<L>,
    HG: Fn(usize, AxisKeys, AxisKeys) -> u32,
    HN: Fn(B) -> L,
    HC: Fn(L) -> Rgba8,
    FL: Fn(Rgba8) -> L,
    FN: Fn(L, L) -> bool,
>(
    clear: &FA,
    t: &ToneCalls<A, FB, FQ, FG, FO, FH, FP, FF>,
    q: &ClusterCalls<Z, T, B, HW, HX, HL, HK, HD, HM, HH, HA, HS, HE, HP, HF, HG, HN, HC>,
    lab_of: &FL,
    near: &FN,
    img: &Raster<C>,
    cfg: &SegmentConfig,
    black: L,
) -> (palette: Palette<L>)
    requires
        pure1(*clear),
        tone_calls_ok(*t),
        cluster_calls_ok(*q),
        pure1(*lab_of),
        pure2(*near),
        img.wf(),
        img.data@.len() <= u32::MAX,
    ensures
        is_palette(*clear, *t, *q, *lab_of, *near, *img, *cfg, black, palette),
        0 < palette.entries@.len() <= wanted(cfg.colors) + cfg.transparent_colors@.len() + 1,
        palette.alpha_slot matches Some(s) ==> s == palette.entries@.len() - 1
            && palette.entries@[s as int].transparent && palette.entries@[s as int].color
            == Rgba8::transparent(),
        palette.alpha_slot is Some <==> any_clear(*clear, img.data@),
        cfg.transparent_colors@.len() == 0 ==> {
            let painted = if palette.alpha_slot is Some {
                palette.entries@.len() - 1
            } else {
                palette.entries@.len() as int
            };
            &&& entry_count_ok(*cfg, painted)
            &&& forall|i: int|
                0 <= i < painted ==> !(#[trigger] palette.entries@[i]).transparent && (
                paints_opaque(t.finish, q.color) ==> palette.entries@[i].color.a == 255)
        },
{
    let has_alpha: bool = img.has_alpha(clear);
    let entries: Vec<PaletteEntry<L>> = match cfg.mode {
        SegmentMode::Binary => {
            let level: V = match cfg.threshold {
                Some(b) => call1(&t.given, b),
                None => call1(&t.found, otsu_threshold(&t.bin, &t.variance, &img.data)),
            };
            assert(is_level(*t, img.data@, *cfg, level));
            two_tones(
                clear,
                &t.light,
                level,
                &t.plus,
                &t.finish,
                t.zero,
                &img.data,
                cfg.invert,
            )
        },
        SegmentMode::Palette => {
            let opaque: Vec<bool> = opaque_pixels(clear, &img.data);
            let mut rng = Rng::new(cfg.seed);
            let picked: Vec<usize> = sample_pixels(&opaque, SAMPLE_LIMIT, &mut rng);
            let k: usize = if cfg.colors < 2 {
                2
            } else {
                cfg.colors
            };
            proof {
                lemma_sample_in_range(
                    opacity(*clear, img.data@),
                    SAMPLE_LIMIT as int,
                    rng_seeded(cfg.seed),
                    picked@,
                );
            }
            let pts: Vec<X> = gather_points(
                &q.flat,
                q.full,
                &q.point,
                img,
                cfg.ignore_edge_pixels,
                &picked,
            );
            let labs: Vec<L> = map_points(&q.lab, &pts);
            let keys: Vec<AxisKeys> = map_points(&q.axes, &pts);
            let centres: Vec<L> = match cfg.palette_method {
                PaletteMethod::KMeans => kmeans_palette(
                    &q.dist,
                    &q.weigh,
                    &q.heavy,
                    &q.aim,
                    &q.spend,
                    &q.spent,
                    q.none,
                    q.zero,
                    &q.plus,
                    &q.mean,
                    &pts,
                    &labs,
                    k,
                    cfg.kmeans_iterations,
                    &mut rng,
                ),
                PaletteMethod::MedianCut => median_cut_palette(
                    &pts,
                    &keys,
                    &q.gap,
                    &q.plus,
                    &q.settle,
                    q.zero,
                    k,
                    q.floor,
                ),
            };
            assert(are_centres(*q, *cfg, pts@, centres@));
            assert(are_sampled_centres(*clear, *q, *img, *cfg, picked@, centres@));
            paint_centres(&q.color, &centres)
        },
    };
    let ghost chosen = entries@;
    proof {
        assert(are_entries(*clear, *t, *q, *img, *cfg, chosen));
        assert(entry_count_ok(*cfg, populated(chosen, black).len() as int));
        law_keying_only_flags(
            *lab_of,
            *near,
            populated(chosen, black),
            cfg.transparent_colors@,
            cfg.transparent_colors@.len() as int,
        );
    }
    finish_palette(lab_of, near, entries, &cfg.transparent_colors, has_alpha, black)
}

fn opaque_pixels<C: Copy, FA: Fn(C) -> bool>(clear: &FA, data: &Vec<C>) -> (out: Vec<bool>)
    requires
        pure1(*clear),
    ensures
        out@ == opacity(*clear, data@),
{
    let mut out: Vec<bool> = Vec::new();
    let mut i: usize = 0;
    while i < data.len()
        invariant
            pure1(*clear),
            i <= data@.len(),
            out@ == opacity(*clear, data@).take(i as int),
        decreases data@.len() - i,
    {
        out.push(!call1(clear, data[i]));
        assert(opacity(*clear, data@).take(i + 1) =~= opacity(*clear, data@).take(i as int).push(
            opacity(*clear, data@)[i as int],
        ));
        i = i + 1;
    }
    assert(opacity(*clear, data@).take(i as int) =~= opacity(*clear, data@));
    out
}

fn gather_points<C: Copy, Z: Copy, X: Copy, HW: Fn(Around<C>) -> Z, HX: Fn(C, Z) -> X>(
    flat: &HW,
    full: Z,
    point: &HX,
    img: &Raster<C>,
    ignore_edges: bool,
    picked: &Vec<usize>,
) -> (pts: Vec<X>)
    requires
        pure1(*flat),
        pure2(*point),
        img.wf(),
        forall|k: int| 0 <= k < picked@.len() ==> (#[trigger] picked@[k]) < img.data@.len(),
    ensures
        pts@ == points_of(*flat, full, *point, *img, ignore_edges, picked@),
{
    let weights: Vec<Z> = if ignore_edges {
        flatness_weights(flat, img, full)
    } else {
        Vec::new()
    };
    let ghost want = points_of(*flat, full, *point, *img, ignore_edges, picked@);
    let mut pts: Vec<X> = Vec::new();
    let mut k: usize = 0;
    while k < picked.len()
        invariant
            pure2(*point),
            forall|k: int| 0 <= k < picked@.len() ==> (#[trigger] picked@[k]) < img.data@.len(),
            ignore_edges ==> weights@.len() == img.data@.len(),
            ignore_edges ==> forall|i: int|
                0 <= i < weights@.len() ==> #[trigger] weights@[i] == pixel_weight(
                    *flat,
                    full,
                    *img,
                    ignore_edges,
                    i,
                ),
            want == points_of(*flat, full, *point, *img, ignore_edges, picked@),
            k <= picked@.len(),
            pts@ == want.take(k as int),
        decreases picked@.len() - k,
    {
        let i: usize = picked[k];
        let w: Z = if ignore_edges {
            weights[i]
        } else {
            full
        };
        assert(w == pixel_weight(*flat, full, *img, ignore_edges, i as int));
        pts.push(call2(point, img.data[i], w));
        assert(want.take(k + 1) =~= want.take(k as int).push(want[k as int]));
        k = k + 1;
    }
    assert(want.take(k as int) =~= want);
    pts
}

fn map_points<X: Copy, Y, F: Fn(X) -> Y>(f: &F, pts: &Vec<X>) -> (out: Vec<Y>)
    requires
        pure1(*f),
    ensures
        out@ == mapped(*f, pts@),
{
    let mut out: Vec<Y> = Vec::new();
    let mut i: usize = 0;
    while i < pts.len()
        invariant
            pure1(*f),
            i <= pts@.len(),
            out@.len() == i,
            forall|j: int| 0 <= j < i ==> #[trigger] out@[j] == value1(*f, pts@[j]),
        decreases pts@.len() - i,
    {
        out.push(call1(f, pts[i]));
        i = i + 1;
    }
    assert(out@ =~= mapped(*f, pts@));
    out
}

fn paint_centres<L: Copy, FC: Fn(L) -> Rgba8>(color: &FC, centres: &Vec<L>) -> (out: Vec<
    PaletteEntry<L>,
>)
    requires
        pure1(*color),
    ensures
        out@ == entries_of(*color, centres@),
{
    let mut out: Vec<PaletteEntry<L>> = Vec::new();
    let mut i: usize = 0;
    while i < centres.len()
        invariant
            pure1(*color),
            i <= centres@.len(),
            out@ == entries_of(*color, centres@).take(i as int),
        decreases centres@.len() - i,
    {
        let c: L = centres[i];
        out.push(PaletteEntry::opaque(call1(color, c), c));
        assert(entries_of(*color, centres@).take(i + 1) =~= entries_of(*color, centres@).take(
            i as int,
        ).push(entries_of(*color, centres@)[i as int]));
        i = i + 1;
    }
    assert(entries_of(*color, centres@).take(i as int) =~= entries_of(*color, centres@));
    out
}

} // verus!
