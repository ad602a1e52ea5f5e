//! Segmentation: the regions of an image and their colours.
//!
//! A palette is chosen, every pixel is labelled with its nearest entry, specks are
//! absorbed, connected regions are numbered, and the colour of each is measured on
//! the source pixels.

use crate::cluster::AxisKeys;
use crate::color::Rgba8;
use crate::components::is_components;
use crate::config::{Billionths, SegmentConfig};
use crate::filter::{flatness_weights, Around};
use crate::palette::{
    build_palette, cluster_calls_ok, is_palette, pixel_weight, tone_calls_ok, wanted, ClusterCalls,
    ToneCalls,
};
use crate::pure::{pure1, pure2, value1};
use crate::quantize::Palette;
use crate::raster::Raster;
use crate::segment::{measured_color, region_colors, segment, settled_labels, Segmentation};
use vstd::prelude::*;

verus! {

/// Every pixel with how much it counts, by how flat its neighbourhood is.
pub open spec fn weighed_pixels<C, Z, HW: Fn(Around<C>) -> Z>(
    flat: HW,
    full: Z,
    img: Raster<C>,
) -> Seq<(C, Z)> {
    Seq::new(
        img.data@.len(),
        |i: int| (img.data@[i], pixel_weight(flat, full, img, true, i)),
    )
}

fn weigh_pixels<C: Copy, Z: Copy, HW: Fn(Around<C>) -> Z>(
    flat: &HW,
    full: Z,
    img: &Raster<C>,
) -> (out: Vec<(C, Z)>)
    requires
        pure1(*flat),
        img.wf(),
    ensures
        out@ == weighed_pixels(*flat, full, *img),
{
    let weights: Vec<Z> = flatness_weights(flat, img, full);
    let mut out: Vec<(C, Z)> = Vec::new();
    let mut i: usize = 0;
    while i < img.data.len()
        invariant
            weights@.len() == img.data@.len(),
            forall|j: int|
                0 <= j < weights@.len() ==> #[trigger] weights@[j] == pixel_weight(
                    *flat,
                    full,
                    *img,
                    true,
                    j,
                ),
            i <= img.data@.len(),
            out@.len() == i,
            forall|j: int|
                0 <= j < i ==> #[trigger] out@[j] == weighed_pixels(*flat, full, *img)[j],
        decreases img.data@.len() - i,
    {
        assert(weights@[i as int] == pixel_weight(*flat, full, *img, true, i as int));
        out.push((img.data[i], weights[i]));
        i = i + 1;
    }
    assert(out@ =~= weighed_pixels(*flat, full, *img));
    out
}

/// `labels` are the palette entries of the pixels, before specks are absorbed.
pub open spec fn are_labels<
    C,
    L: Copy,
    FA: Fn(C) -> bool,
    FI: Fn(C) -> L,
    FD: Fn(L, L) -> u32,
>(clear: FA, lookup: FI, dist: FD, palette: Palette<L>, data: Seq<C>, labels: Seq<u32>) -> bool {
    &&& labels.len() == data.len()
    &&& forall|i: int|
        0 <= i < data.len() ==> palette.is_label(
            dist,
            value1(clear, data[i]),
            value1(lookup, data[i]),
            #[trigger] labels[i],
        )
}

/// Segment an image. `lookup` gives the colour of a pixel and `dist` how far two
/// colours are apart, ordered; `plus` adds a pixel with its weight to the sum of its
/// region, and `finish` makes a colour of a sum that weighs anything. The other
/// callbacks are those of [`build_palette`].
pub fn segment_image<
    C: Copy,
    L: Copy,
    V: Copy,
    A: Copy,
    Z: Copy,
    X: Copy,
    T: Copy,
    B: Copy,
    S: Copy,
    FA: Fn(C) -> bool,
    FB: Fn(C) -> Option<u8>,
    FQ: Fn(u64, u64, u64, u64) -> u64,
    FG: Fn(Billionths) -> V,
    FO: Fn(Option<usize>) -> V,
    FH: Fn(V, C) -> bool,
    FP: Fn(A, C) -> A,
    FF: Fn(A, bool) -> (Rgba8, L),
    HW: Fn(Around<C>) -> Z,
    HX: Fn(C, Z) -> X,
    HL: Fn(X) -> L,
    HK: Fn(X) -> AxisKeys,
    HD: Fn(X, L) -> u32,
    HM: Fn(T, u32, X) -> T,
    HH: Fn(T) -> bool,
    HA: Fn(T, u64) -> T,
    HS: Fn(T, u32, X) -> T,
    HE: Fn(T) -> bool,
    HP: Fn(B, X) -> B,
    HF: Fn(B) -> Option<L>,
    HG: Fn(usize, AxisKeys, AxisKeys) -> u32,
    HN: Fn(B) -> L,
    HC: Fn(L) -> Rgba8,
    FL: Fn(Rgba8) -> L,
    FN: Fn(L, L) -> bool,
    FI: Fn(C) -> L,
    FD: Fn(L, L) -> u32,
    FS: Fn(S, (C, Z)) -> S,
    FM: Fn(S) -> Option<Rgba8>,
>(
    clear: &FA,
    t: &ToneCalls<A, FB, FQ, FG, FO, FH, FP, FF>,
    q: &ClusterCalls<Z, T, B, HW, HX, HL, HK, HD, HM, HH, HA, HS, HE, HP, HF, HG, HN, HC>,
    lab_of: &FL,
    near: &FN,
    lookup: &FI,
    dist: &FD,
    plus: &FS,
    finish: &FM,
    zero: S,
    img: &Raster<C>,
    cfg: &SegmentConfig,
    black: L,
) -> (seg: Segmentation<L>)
    requires
        pure1(*clear),
        tone_calls_ok(*t),
        cluster_calls_ok(*q),
        pure1(*lab_of),
        pure2(*near),
        pure1(*lookup),
        pure2(*dist),
        pure2(*plus),
        pure1(*finish),
        img.wf(),
        img.data@.len() < u32::MAX,
        wanted(cfg.colors) + cfg.transparent_colors@.len() + 1 <= u32::MAX,
    ensures
        seg.wf(),
        seg.width == img.width,
        seg.height == img.height,
        is_palette(*clear, *t, *q, *lab_of, *near, *img, *cfg, black, seg.palette),
        exists|labels: Seq<u32>|
            #[trigger] are_labels(*clear, *lookup, *dist, seg.palette, img.data@, labels)
                && settled_labels(labels, img.width as int, cfg.despeckle_area, 3, seg.labels@),
        is_components(
            seg.labels@,
            img.width as int,
            seg.regions@,
            seg.region_label@,
            seg.region_area@,
        ),
        seg.region_color@.len() == seg.region_area@.len(),
        forall|r: int|
            0 <= r < seg.region_color@.len() ==> #[trigger] seg.region_color@[r] == measured_color(
                weighed_pixels(q.flat, q.full, *img),
                seg.regions@,
                seg.palette,
                seg.region_label@,
                r,
                zero,
                *plus,
                *finish,
            ),
{
    let palette: Palette<L> = build_palette(clear, t, q, lab_of, near, img, cfg, black);
    let labels: Vec<u32> = palette.assign_labels(clear, lookup, dist, &img.data);
    assert(are_labels(*clear, *lookup, *dist, palette, img.data@, labels@));
    let mut seg: Segmentation<L> = segment(
        img.width,
        img.height,
        palette,
        labels,
        cfg.despeckle_area,
    );
    let pixels: Vec<(C, Z)> = weigh_pixels(&q.flat, q.full, img);
    seg.region_color = region_colors(
        &pixels,
        &seg.regions,
        &seg.palette,
        &seg.region_label,
        zero,
        plus,
        finish,
    );
    seg
}

} // verus!
