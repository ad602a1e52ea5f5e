//! Turning a quantised image into a map of labelled, connected regions.
//!
//! Two maps come out of this stage. `labels` holds a palette index per pixel.
//! `regions` holds a *connected component* id per pixel, so two separate blobs
//! of the same colour are distinct regions. The topology pass works on regions
//! rather than labels, because the boundary between two same-coloured but
//! disconnected blobs is still a real boundary that has to be traced.

use crate::color::Rgba8;
use crate::components::{connected_components, first_pixel, is_components, numbered_in_order};
use crate::despeckle::{despeckle, despeckled, lemma_few_regions, Merge};
use crate::quantize::Palette;
use crate::cluster::{group_sums, member_sum};
use crate::pure::{call1, call2, pure1, pure2, value1, value2};
use crate::raster::Raster;
use vstd::prelude::*;

verus! {

/// Sentinel region id for "outside the image". The topology pass adds a virtual
/// border of this region so that shapes touching the edge still close.
pub const OUTSIDE: u32 = u32::MAX;

/// The region map as a function on the plane: every pixel position outside the
/// image belongs to `OUTSIDE`.
pub ghost struct RegionGrid {
    pub w: int,
    pub h: int,
    pub regions: Seq<u32>,
}

impl RegionGrid {
    #[verifier::opaque]
    pub open spec fn at(self, x: int, y: int) -> u32 {
        if 0 <= x < self.w && 0 <= y < self.h {
            self.regions[y * self.w + x]
        } else {
            OUTSIDE
        }
    }
}

pub struct Segmentation<L> {
    pub width: u32,
    pub height: u32,
    /// Palette index per pixel.
    pub labels: Vec<u32>,
    /// Connected-component id per pixel.
    pub regions: Vec<u32>,
    /// Palette index of each region.
    pub region_label: Vec<u32>,
    /// Pixel count of each region.
    pub region_area: Vec<u32>,
    /// Mean colour of each region, taken from the *source* pixels rather than
    /// the palette. The sub-pixel solver needs the real colours either side of
    /// an edge, and a region's true interior colour can sit slightly off its
    /// palette entry.
    pub region_color: Vec<Rgba8>,
    pub palette: Palette<L>,
}

impl<L> Segmentation<L> {
    /// The tables have the image's and the regions' sizes, every pixel belongs
    /// to a region, and every region to a palette entry.
    pub open spec fn wf(&self) -> bool {
        &&& self.regions@.len() == self.width * self.height
        &&& self.region_label@.len() == self.region_area@.len()
        &&& self.region_area@.len() < u32::MAX
        &&& forall|p: int|
            0 <= p < self.regions@.len() ==> (#[trigger] self.regions@[p]) < self.region_area@.len()
        &&& forall|r: int|
            0 <= r < self.region_label@.len() ==> (#[trigger] self.region_label@[r])
                < self.palette.entries@.len()
    }

    pub open spec fn grid(&self) -> RegionGrid {
        RegionGrid { w: self.width as int, h: self.height as int, regions: self.regions@ }
    }

    pub fn idx(&self, x: u32, y: u32) -> (i: usize)
        requires
            self.wf(),
            x < self.width,
            y < self.height,
        ensures
            i == y * self.width + x,
            i < self.regions@.len(),
    {
        proof {
            lemma_index(self.width as int, self.height as int, x as int, y as int);
            assert(self.regions@.len() == self.regions.len());
        }
        (y as usize) * (self.width as usize) + (x as usize)
    }

    pub fn region_at(&self, x: u32, y: u32) -> (r: u32)
        requires
            self.wf(),
            x < self.width,
            y < self.height,
        ensures
            r == self.regions@[y * self.width + x],
    {
        self.regions[self.idx(x, y)]
    }

    /// Region id treating out-of-bounds coordinates as `OUTSIDE`.
    pub fn region_at_signed(&self, x: i64, y: i64) -> (r: u32)
        requires
            self.wf(),
        ensures
            r == self.grid().at(x as int, y as int),
    {
        reveal(RegionGrid::at);
        if x < 0 || y < 0 || x >= self.width as i64 || y >= self.height as i64 {
            OUTSIDE
        } else {
            self.region_at(x as u32, y as u32)
        }
    }

    pub fn region_count(&self) -> (n: usize)
        ensures
            n == self.region_area@.len(),
    {
        self.region_area.len()
    }

    /// Whether a region is left unpainted: outside the image, alpha-transparent,
    /// or one of the colours that were asked to be keyed out.
    pub open spec fn unpainted(&self, region: u32) -> bool {
        region == OUTSIDE
            || self.palette.entries@[self.region_label@[region as int] as int].transparent
    }

    /// Fill colour for a region: transparent regions are reported as such so
    /// the exporter can drop them.
    pub fn region_fill(&self, region: u32) -> (c: Rgba8)
        requires
            self.wf(),
            region == OUTSIDE || region < self.region_area@.len(),
        ensures
            self.unpainted(region) ==> c == Rgba8::transparent(),
            !self.unpainted(region) ==> c
                == self.palette.entries@[self.region_label@[region as int] as int].color,
    {
        if self.is_transparent(region) {
            return Rgba8::transparent();
        }
        let label: usize = self.region_label[region as usize] as usize;
        self.palette.entries[label].color
    }

    /// See [`Segmentation::unpainted`].
    pub fn is_transparent(&self, region: u32) -> (b: bool)
        requires
            self.wf(),
            region == OUTSIDE || region < self.region_area@.len(),
        ensures
            b == self.unpainted(region),
    {
        if region == OUTSIDE {
            return true;
        }
        let label: usize = self.region_label[region as usize] as usize;
        self.palette.is_transparent(label)
    }
}

/// A row-major index stays inside its grid.
pub proof fn lemma_index(w: int, h: int, x: int, y: int)
    requires
        0 <= x < w,
        0 <= y < h,
    ensures
        0 <= y * w + x < w * h,
        y * w >= 0,
        y * w <= w * h,
{
    assert(y * w + w <= w * h) by (nonlinear_arith)
        requires
            0 <= w,
            y + 1 <= h,
    ;
    assert(0 <= y * w) by (nonlinear_arith)
        requires
            0 <= w,
            0 <= y,
    ;
}

/// `result` comes of `labels` by despeckling up to `rounds` times, ending early
/// when a round changes nothing.
pub open spec fn settled_labels(
    labels: Seq<u32>,
    w: int,
    min_area: u32,
    rounds: nat,
    result: Seq<u32>,
) -> bool
    decreases rounds,
{
    if rounds == 0 {
        result == labels
    } else {
        exists|next: Seq<u32>| #[trigger]
            despeckled(labels, w, min_area, next) && (if next == labels {
                result == labels
            } else {
                settled_labels(next, w, min_area, (rounds - 1) as nat, result)
            })
    }
}

/// Despeckling invents no label.
pub proof fn lemma_despeckled_bound(
    labels: Seq<u32>,
    w: int,
    min_area: u32,
    result: Seq<u32>,
    bound: int,
)
    requires
        despeckled(labels, w, min_area, result),
        forall|p: int| 0 <= p < labels.len() ==> #[trigger] labels[p] < bound,
    ensures
        result.len() == labels.len(),
        forall|p: int| 0 <= p < result.len() ==> #[trigger] result[p] < bound,
{
    let m = choose|m: Merge| m.absorbs(labels, w, min_area, result);
    assert forall|r: int| 0 <= r < m.region_label.len() implies #[trigger] m.region_label[r]
        < bound by {
        assert(numbered_in_order(m.regions, r));
        let p = choose|p: int| first_pixel(m.regions, r, p);
        assert(m.region_label[m.regions[p] as int] == labels[p]);
    }
    lemma_settled_bound(m, w, min_area, m.order.len() as int, bound);
    assert forall|p: int| 0 <= p < result.len() implies #[trigger] result[p] < bound by {
        assert(m.regions[p] < m.region_label.len());
    }
}

proof fn lemma_settled_bound(m: Merge, w: int, min_area: u32, k: int, bound: int)
    requires
        m.order_ok(min_area),
        m.targets_ok(w),
        m.region_label.len() == m.region_area.len(),
        0 <= k <= m.order.len(),
        forall|r: int| 0 <= r < m.region_label.len() ==> #[trigger] m.region_label[r] < bound,
    ensures
        m.settled(k).len() == m.region_label.len(),
        forall|r: int| 0 <= r < m.region_label.len() ==> #[trigger] m.settled(k)[r] < bound,
    decreases k,
{
    if k > 0 {
        lemma_settled_bound(m, w, min_area, k - 1, bound);
        let c = m.settled(k - 1);
        match m.targets[k - 1] {
            Some(t) => {
                assert(m.is_best_target(w, m.order[k - 1], t));
                assert(c[t as int] < bound);
            },
            None => {},
        }
    }
}

/// Build the region map of a labelled image: absorb specks below
/// `despeckle_area`, in up to three rounds, and number the connected regions of
/// what is left. Each region's colour starts out as its palette colour.
pub fn segment<L>(
    width: u32,
    height: u32,
    palette: Palette<L>,
    labels: Vec<u32>,
    despeckle_area: u32,
) -> (seg: Segmentation<L>)
    requires
        labels@.len() == width * height,
        labels@.len() < u32::MAX,
        forall|p: int|
            0 <= p < labels@.len() ==> #[trigger] labels@[p] < palette.entries@.len(),
    ensures
        seg.wf(),
        seg.width == width,
        seg.height == height,
        seg.palette == palette,
        settled_labels(labels@, width as int, despeckle_area, 3, seg.labels@),
        is_components(
            seg.labels@,
            width as int,
            seg.regions@,
            seg.region_label@,
            seg.region_area@,
        ),
        seg.region_color@.len() == seg.region_label@.len(),
        forall|r: int|
            0 <= r < seg.region_color@.len() ==> #[trigger] seg.region_color@[r]
                == palette.entries@[seg.region_label@[r] as int].color,
{
    let ghost l0 = labels@;
    let ghost w = width as int;
    let mut labels: Vec<u32> = labels;
    let changed: bool = despeckle(width, height, &mut labels, despeckle_area);
    let ghost l1 = labels@;
    proof {
        lemma_despeckled_bound(l0, w, despeckle_area, l1, palette.entries@.len() as int);
    }
    if changed {
        let again: bool = despeckle(width, height, &mut labels, despeckle_area);
        let ghost l2 = labels@;
        proof {
            lemma_despeckled_bound(l1, w, despeckle_area, l2, palette.entries@.len() as int);
        }
        if again {
            despeckle(width, height, &mut labels, despeckle_area);
            let ghost l3 = labels@;
            proof {
                lemma_despeckled_bound(l2, w, despeckle_area, l3, palette.entries@.len() as int);
                assert(settled_labels(l3, w, despeckle_area, 0, l3));
                assert(despeckled(l2, w, despeckle_area, l3));
                assert(settled_labels(l2, w, despeckle_area, 1, l3));
            }
        } else {
            assert(despeckled(l1, w, despeckle_area, l1));
            assert(despeckled(l2, w, despeckle_area, l2));
            assert(settled_labels(l2, w, despeckle_area, 1, l2));
        }
        proof {
            assert(despeckled(l1, w, despeckle_area, l2));
            assert(settled_labels(l1, w, despeckle_area, 2, labels@));
        }
    }
    assert(despeckled(l0, w, despeckle_area, l1));
    assert(settled_labels(l0, w, despeckle_area, 3, labels@));
    let (regions, region_label, region_area) = connected_components(width, height, &labels);
    proof {
        lemma_few_regions(labels@, w, regions@, region_label@, region_area@);
        assert forall|r: int| 0 <= r < region_label@.len() implies (#[trigger] region_label@[r])
            < palette.entries@.len() by {
            assert(numbered_in_order(regions@, r));
            let p = choose|p: int| first_pixel(regions@, r, p);
            assert(region_label@[regions@[p] as int] == labels@[p]);
        }
    }
    let mut region_color: Vec<Rgba8> = Vec::new();
    let mut r: usize = 0;
    while r < region_label.len()
        invariant
            r <= region_label@.len(),
            region_color@.len() == r,
            forall|q: int|
                0 <= q < region_label@.len() ==> (#[trigger] region_label@[q])
                    < palette.entries@.len(),
            forall|q: int|
                0 <= q < r ==> #[trigger] region_color@[q]
                    == palette.entries@[region_label@[q] as int].color,
        decreases region_label@.len() - r,
    {
        region_color.push(palette.entries[region_label[r] as usize].color);
        r = r + 1;
    }
    Segmentation { width, height, labels, regions, region_label, region_area, region_color, palette }
}

// ---- Measured colours ---------------------------------------------------

/// The measured colour of region `r`: `finish` turns the sum over its pixels
/// into a colour, or `None` where they weigh nothing, which leaves its palette
/// colour.
pub open spec fn measured_color<X, L, A, F: Fn(A, X) -> A, M: Fn(A) -> Option<Rgba8>>(
    pixels: Seq<X>,
    regions: Seq<u32>,
    palette: Palette<L>,
    region_label: Seq<u32>,
    r: int,
    zero: A,
    plus: F,
    finish: M,
) -> Rgba8 {
    match value1(finish, member_sum(pixels, regions, r, zero, plus, regions.len() as int)) {
        Some(c) => c,
        None => palette.entries@[region_label[r] as int].color,
    }
}

/// The mean source colour of every region. `plus` accumulates a pixel,
/// and `finish` divides by the weight.
pub fn region_colors<
    X: Copy,
    L,
    A: Copy,
    F: Fn(A, X) -> A,
    M: Fn(A) -> Option<Rgba8>,
>(
    pixels: &Vec<X>,
    regions: &Vec<u32>,
    palette: &Palette<L>,
    region_label: &Vec<u32>,
    zero: A,
    plus: &F,
    finish: &M,
) -> (colors: Vec<Rgba8>)
    requires
        pixels@.len() == regions@.len(),
        forall|i: int| 0 <= i < regions@.len() ==> #[trigger] regions@[i] < region_label@.len(),
        forall|r: int|
            0 <= r < region_label@.len() ==> #[trigger] region_label@[r] < palette.entries@.len(),
        pure2(*plus),
        pure1(*finish),
    ensures
        colors@.len() == region_label@.len(),
        forall|r: int|
            0 <= r < colors@.len() ==> #[trigger] colors@[r] == measured_color(
                pixels@,
                regions@,
                *palette,
                region_label@,
                r,
                zero,
                *plus,
                *finish,
            ),
{
    let n: usize = region_label.len();
    let sums: Vec<A> = group_sums(pixels, regions, n, zero, plus);
    let mut colors: Vec<Rgba8> = Vec::new();
    let mut r: usize = 0;
    while r < n
        invariant
            r <= n,
            n == region_label@.len(),
            sums@.len() == n,
            forall|k: int|
                0 <= k < n ==> #[trigger] sums@[k] == member_sum(
                    pixels@,
                    regions@,
                    k,
                    zero,
                    *plus,
                    regions@.len() as int,
                ),
            forall|k: int|
                0 <= k < region_label@.len() ==> #[trigger] region_label@[k]
                    < palette.entries@.len(),
            pure1(*finish),
            colors@.len() == r,
            forall|k: int|
                0 <= k < r ==> #[trigger] colors@[k] == measured_color(
                    pixels@,
                    regions@,
                    *palette,
                    region_label@,
                    k,
                    zero,
                    *plus,
                    *finish,
                ),
        decreases n - r,
    {
        let c: Option<Rgba8> = call1(finish, sums[r]);
        match c {
            Some(c) => colors.push(c),
            None => colors.push(palette.entries[region_label[r] as usize].color),
        }
        r = r + 1;
    }
    colors
}

/// The colour `lab` is close to one of the keys.
pub open spec fn is_keyed_out<L, N: Fn(L, L) -> bool>(near: N, keys: Seq<L>, lab: L) -> bool {
    exists|k: int| 0 <= k < keys.len() && value2(near, #[trigger] keys[k], lab)
}

/// The colours of the keys.
pub open spec fn key_labs<L, F: Fn(Rgba8) -> L>(key_lab: F, keys: Seq<Rgba8>) -> Seq<L> {
    Seq::new(keys.len(), |k: int| value1(key_lab, keys[k]))
}

fn matches_key<L: Copy, N: Fn(L, L) -> bool>(near: &N, keys: &Vec<L>, lab: L) -> (b: bool)
    requires
        pure2(*near),
    ensures
        b == is_keyed_out(*near, keys@, lab),
{
    let mut k: usize = 0;
    while k < keys.len()
        invariant
            pure2(*near),
            k <= keys@.len(),
            forall|j: int| 0 <= j < k ==> !value2(*near, #[trigger] keys@[j], lab),
        decreases keys@.len() - k,
    {
        if call2(near, keys[k], lab) {
            assert(value2(*near, keys@[k as int], lab));
            return true;
        }
        k = k + 1;
    }
    false
}

/// The image that a trace should be scored against, or `None` where that is the
/// image itself because no colour is keyed out.
///
/// A colour-keyed region is deliberately absent from the vector output, so
/// scoring the render against the untouched original would count every such
/// pixel as an error -- and the picker would then try to buy the "error" back.
/// Pixels whose colour, `lab_of`, is `near` that of a key are made transparent by
/// `clear` instead, so the scorer sees what the trace was asked to produce.
pub fn scoring_reference<
    C: Copy,
    L: Copy,
    G: Fn(Rgba8) -> L,
    F: Fn(C) -> L,
    N: Fn(L, L) -> bool,
    K: Fn(C) -> C,
>(key_lab: &G, lab_of: &F, near: &N, clear: &K, img: &Raster<C>, keys: &Vec<Rgba8>) -> (r: Option<
    Raster<C>,
>)
    requires
        pure1(*key_lab),
        pure1(*lab_of),
        pure2(*near),
        pure1(*clear),
    ensures
        r is None <==> keys@.len() == 0,
        r matches Some(out) ==> {
            &&& out.width == img.width
            &&& out.height == img.height
            &&& out.data@.len() == img.data@.len()
            &&& forall|i: int|
                0 <= i < out.data@.len() ==> #[trigger] out.data@[i] == if is_keyed_out(
                    *near,
                    key_labs(*key_lab, keys@),
                    value1(*lab_of, img.data@[i]),
                ) {
                    value1(*clear, img.data@[i])
                } else {
                    img.data@[i]
                }
        },
{
    if keys.len() == 0 {
        return None;
    }
    let mut labs: Vec<L> = Vec::new();
    let mut k: usize = 0;
    while k < keys.len()
        invariant
            pure1(*key_lab),
            k <= keys@.len(),
            labs@.len() == k,
            forall|j: int| 0 <= j < k ==> #[trigger] labs@[j] == value1(*key_lab, keys@[j]),
        decreases keys@.len() - k,
    {
        labs.push(call1(key_lab, keys[k]));
        k = k + 1;
    }
    assert(labs@ =~= key_labs(*key_lab, keys@));
    let mut data: Vec<C> = Vec::new();
    let mut i: usize = 0;
    while i < img.data.len()
        invariant
            pure1(*lab_of),
            pure2(*near),
            pure1(*clear),
            i <= img.data@.len(),
            data@.len() == i,
            forall|j: int|
                0 <= j < i ==> #[trigger] data@[j] == if is_keyed_out(
                    *near,
                    labs@,
                    value1(*lab_of, img.data@[j]),
                ) {
                    value1(*clear, img.data@[j])
                } else {
                    img.data@[j]
                },
        decreases img.data@.len() - i,
    {
        let c: C = img.data[i];
        if matches_key(near, &labs, call1(lab_of, c)) {
            data.push(call1(clear, c));
        } else {
            data.push(c);
        }
        i = i + 1;
    }
    Some(Raster { width: img.width, height: img.height, data })
}

} // verus!
