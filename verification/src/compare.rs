//! Comparing two images: how many pixels look the same, how far off the others
//! are, and how alike the two are in structure.
//!
//! Differences and squared errors come in as whole numbers of some small unit.
//! The peak signal-to-noise ratio and the structural similarity come in as
//! integers that order like them.

use crate::filter::{
    blur, blurred_across, blurred_down, law_blurring_one_value_leaves_one,
    law_one_tap_looks_at_the_pixel_itself, through,
};
use crate::pure::{call1, call2, pure1, pure2, pure3, value1, value2, value3};
use crate::raster::Raster;
use crate::score::{
    count_matched, is_largest, is_p95, largest, law_a_higher_threshold_never_matches_less,
    law_all_match_iff_the_largest_does, law_no_difference_matches_everywhere,
    law_p95_is_at_most_the_largest, law_p95_is_unique, law_the_mean_is_at_most_the_largest, matched,
    p95, sum, summed,
};
use vstd::prelude::*;

verus! {

/// How two images compare.
#[derive(Clone, Copy, Debug, PartialEq, Eq, Structural)]
pub struct Comparison {
    /// How many pixels were compared.
    pub pixels: usize,
    /// How many of them differ by the threshold at most. The headline.
    pub matched: usize,
    /// The differences of all pixels together.
    pub total: u128,
    pub p95: u64,
    pub largest: u64,
    /// The squared errors of all pixels together.
    pub squares: u128,
    /// Peak signal-to-noise ratio, capped.
    pub psnr: i64,
    /// Structural similarity.
    pub ssim: i64,
}

/// What comparing pixel by pixel asks of the numbers. `lay` puts a pixel on the
/// background that both images are judged on, `delta` says how different two
/// pixels look and `square` how large their squared error is. `peak` makes a
/// signal-to-noise ratio of the squared errors of that many pixels, and `cap` is
/// the ratio of an exact match.
pub struct PixelCalls<FL, FD, FS, FR> {
    pub lay: FL,
    pub delta: FD,
    pub square: FS,
    pub peak: FR,
    pub cap: i64,
}

/// The weighted means around a pixel: of the two images, of their squares, and of
/// their product.
#[derive(Clone, Copy, Debug)]
pub struct Moments<V> {
    pub x: V,
    pub y: V,
    pub xx: V,
    pub yy: V,
    pub xy: V,
}

/// What structural similarity asks of the numbers. `luma` is how light a pixel is,
/// `times` multiplies, `blend` adds a weighted value, and `plus` adds how alike the
/// images are around one pixel. `mean` makes a similarity of the sum over that many
/// pixels, which is kept from `low` to `high`; `low` also stands for images that
/// have no pixels in common.
pub struct LikenessCalls<V, K, T, FV, FM, FB, FP, FN> {
    pub luma: FV,
    pub times: FM,
    pub blend: FB,
    pub zero: V,
    pub kernel: Vec<K>,
    pub plus: FP,
    pub none: T,
    pub mean: FN,
    pub low: i64,
    pub high: i64,
}

/// The callbacks are functions.
pub open spec fn pixel_calls_ok<
    C,
    D,
    FL: Fn(C) -> D,
    FD: Fn(D, D) -> u64,
    FS: Fn(D, D) -> u64,
    FR: Fn(u128, usize) -> i64,
>(c: PixelCalls<FL, FD, FS, FR>) -> bool {
    &&& pure1(c.lay)
    &&& pure2(c.delta)
    &&& pure2(c.square)
    &&& pure2(c.peak)
}

/// The callbacks are functions, and there is a window to look through.
pub open spec fn likeness_calls_ok<
    D,
    V,
    K,
    T,
    FV: Fn(D) -> V,
    FM: Fn(V, V) -> V,
    FB: Fn(V, V, K) -> V,
    FP: Fn(T, Moments<V>) -> T,
    FN: Fn(T, usize) -> i64,
>(l: LikenessCalls<V, K, T, FV, FM, FB, FP, FN>) -> bool {
    &&& pure1(l.luma)
    &&& pure2(l.times)
    &&& pure3(l.blend)
    &&& pure2(l.plus)
    &&& pure2(l.mean)
    &&& l.kernel@.len() > 0
    &&& l.low <= l.high
}

pub open spec fn lesser(a: int, b: int) -> int {
    if a < b {
        a
    } else {
        b
    }
}

/// The pixels on the background.
pub open spec fn laid<C, D, FL: Fn(C) -> D>(lay: FL, data: Seq<C>) -> Seq<D> {
    Seq::new(data.len(), |i: int| value1(lay, data[i]))
}

/// What `f` makes of the pixels that the two images share, one by one.
pub open spec fn pairwise<D, R, F: Fn(D, D) -> R>(f: F, a: Seq<D>, b: Seq<D>) -> Seq<R> {
    Seq::new(lesser(a.len() as int, b.len() as int) as nat, |i: int| value2(f, a[i], b[i]))
}

/// The signal-to-noise ratio, at most `cap`.
pub open spec fn capped<FR: Fn(u128, usize) -> i64>(
    peak: FR,
    cap: i64,
    squares: u128,
    pixels: usize,
) -> i64 {
    if squares == 0 || value2(peak, squares, pixels) > cap {
        cap
    } else {
        value2(peak, squares, pixels)
    }
}

// ---- Structural similarity ----------------------------------------------

/// How light the pixels of the upper left `w` by `h` of an image are, whose rows
/// are `width` long.
pub open spec fn lumas<D, V, FV: Fn(D) -> V>(
    luma: FV,
    data: Seq<D>,
    width: u32,
    w: int,
    h: int,
) -> Seq<V> {
    Seq::new((w * h) as nat, |i: int| value1(luma, data[(i / w) * width + i % w]))
}

/// The values seen through the window.
pub open spec fn windowed<V, K, FB: Fn(V, V, K) -> V>(
    blend: FB,
    zero: V,
    kernel: Seq<K>,
    src: Seq<V>,
    w: int,
    h: int,
) -> Seq<V> {
    blurred_down(blend, zero, blurred_across(blend, zero, src, w, kernel), w, h, kernel)
}

/// The weighted means around pixel `i`.
pub open spec fn moments_at<
    D,
    V,
    K,
    T,
    FV: Fn(D) -> V,
    FM: Fn(V, V) -> V,
    FB: Fn(V, V, K) -> V,
    FP: Fn(T, Moments<V>) -> T,
    FN: Fn(T, usize) -> i64,
>(
    l: LikenessCalls<V, K, T, FV, FM, FB, FP, FN>,
    x: Seq<V>,
    y: Seq<V>,
    w: int,
    h: int,
    i: int,
) -> Moments<V> {
    let see = |src: Seq<V>| windowed(l.blend, l.zero, l.kernel@, src, w, h)[i];
    Moments {
        x: see(x),
        y: see(y),
        xx: see(pairwise(l.times, x, x)),
        yy: see(pairwise(l.times, y, y)),
        xy: see(pairwise(l.times, x, y)),
    }
}

/// How alike the images are around the first `k` pixels, added up.
pub open spec fn likeness_sum<
    D,
    V,
    K,
    T,
    FV: Fn(D) -> V,
    FM: Fn(V, V) -> V,
    FB: Fn(V, V, K) -> V,
    FP: Fn(T, Moments<V>) -> T,
    FN: Fn(T, usize) -> i64,
>(
    l: LikenessCalls<V, K, T, FV, FM, FB, FP, FN>,
    x: Seq<V>,
    y: Seq<V>,
    w: int,
    h: int,
    k: int,
) -> T
    decreases k,
{
    if k <= 0 {
        l.none
    } else {
        value2(l.plus, likeness_sum(l, x, y, w, h, k - 1), moments_at(l, x, y, w, h, k - 1))
    }
}

/// `v`, kept from `low` to `high`.
pub open spec fn kept(v: i64, low: i64, high: i64) -> i64 {
    if v < low {
        low
    } else if v > high {
        high
    } else {
        v
    }
}

/// The structural similarity of what two images have in common, each given by its
/// pixels and its width and height.
pub open spec fn likeness<
    D,
    V,
    K,
    T,
    FV: Fn(D) -> V,
    FM: Fn(V, V) -> V,
    FB: Fn(V, V, K) -> V,
    FP: Fn(T, Moments<V>) -> T,
    FN: Fn(T, usize) -> i64,
>(
    l: LikenessCalls<V, K, T, FV, FM, FB, FP, FN>,
    a: Seq<D>,
    a_size: (u32, u32),
    b: Seq<D>,
    b_size: (u32, u32),
) -> i64 {
    let w = lesser(a_size.0 as int, b_size.0 as int);
    let h = lesser(a_size.1 as int, b_size.1 as int);
    if w == 0 || h == 0 {
        l.low
    } else {
        let x = lumas(l.luma, a, a_size.0, w, h);
        let y = lumas(l.luma, b, b_size.0, w, h);
        kept(
            value2(l.mean, likeness_sum(l, x, y, w, h, w * h), (w * h) as usize),
            l.low,
            l.high,
        )
    }
}

proof fn lemma_common(w: int, h: int, width: int, height: int)
    requires
        0 <= w <= width,
        0 <= h <= height,
    ensures
        0 <= w * h <= width * height,
{
    assert(0 <= w * h <= width * height) by (nonlinear_arith)
        requires
            0 <= w <= width,
            0 <= h <= height,
    ;
}

fn luma_plane<D: Copy, V: Copy, FV: Fn(D) -> V>(luma: &FV, img: &Raster<D>, w: u32, h: u32) -> (out:
    Vec<V>)
    requires
        pure1(*luma),
        img.wf(),
        0 < w <= img.width,
        0 < h <= img.height,
    ensures
        out@ == lumas(*luma, img.data@, img.width, w as int, h as int),
{
    let ghost all = lumas(*luma, img.data@, img.width, w as int, h as int);
    let mut out: Vec<V> = Vec::new();
    proof {
        lemma_common(w as int, h as int, img.width as int, img.height as int);
        assert(img.data.len() >= w * h);
    }
    let n: usize = w as usize * h as usize;
    let mut i: usize = 0;
    while i < n
        invariant
            pure1(*luma),
            img.wf(),
            0 < w <= img.width,
            0 < h <= img.height,
            n == w * h,
            i <= n,
            all == lumas(*luma, img.data@, img.width, w as int, h as int),
            out@ == all.take(i as int),
        decreases n - i,
    {
        let x: usize = i % w as usize;
        let y: usize = i / w as usize;
        proof {
            let (ww, hh, ii) = (w as int, h as int, i as int);
            assert(0 <= ii % ww < ww && 0 <= ii / ww < hh) by (nonlinear_arith)
                requires
                    0 <= ii < ww * hh,
                    ww > 0,
            ;
            let (wide, tall) = (img.width as int, img.height as int);
            assert(0 <= y * wide + x < wide * tall) by (nonlinear_arith)
                requires
                    0 <= x < wide,
                    0 <= y < tall,
            ;
        }
        out.push(call1(luma, img.get(x as u32, y as u32)));
        assert(all.take(i + 1) =~= all.take(i as int).push(all[i as int]));
        i = i + 1;
    }
    assert(all.take(n as int) =~= all);
    out
}

fn combine<D: Copy, R, F: Fn(D, D) -> R>(f: &F, a: &Vec<D>, b: &Vec<D>) -> (out: Vec<R>)
    requires
        pure2(*f),
    ensures
        out@ == pairwise(*f, a@, b@),
{
    let ghost all = pairwise(*f, a@, b@);
    let n: usize = if a.len() < b.len() {
        a.len()
    } else {
        b.len()
    };
    let mut out: Vec<R> = Vec::new();
    let mut i: usize = 0;
    while i < n
        invariant
            pure2(*f),
            n <= a@.len(),
            n <= b@.len(),
            n == all.len(),
            all == pairwise(*f, a@, b@),
            i <= n,
            out@ == all.take(i as int),
        decreases n - i,
    {
        out.push(call2(f, a[i], b[i]));
        assert(all.take(i + 1) =~= all.take(i as int).push(all[i as int]));
        i = i + 1;
    }
    assert(all.take(n as int) =~= all);
    out
}

/// Windowed structural similarity of what two images have in common.
pub fn ssim<
    D: Copy,
    V: Copy,
    K: Copy,
    T: Copy,
    FV: Fn(D) -> V,
    FM: Fn(V, V) -> V,
    FB: Fn(V, V, K) -> V,
    FP: Fn(T, Moments<V>) -> T,
    FN: Fn(T, usize) -> i64,
>(l: &LikenessCalls<V, K, T, FV, FM, FB, FP, FN>, a: &Raster<D>, b: &Raster<D>) -> (s: i64)
    requires
        likeness_calls_ok(*l),
        a.wf(),
        b.wf(),
    ensures
        s == likeness(*l, a.data@, (a.width, a.height), b.data@, (b.width, b.height)),
        l.low <= s <= l.high,
{
    let w: u32 = if a.width < b.width {
        a.width
    } else {
        b.width
    };
    let h: u32 = if a.height < b.height {
        a.height
    } else {
        b.height
    };
    if w == 0 || h == 0 {
        return l.low;
    }
    let (wide, tall) = (w as usize, h as usize);
    proof {
        lemma_common(w as int, h as int, a.width as int, a.height as int);
        assert(a.data.len() >= w * h);
    }
    let n: usize = wide * tall;
    let x: Vec<V> = luma_plane(&l.luma, a, w, h);
    let y: Vec<V> = luma_plane(&l.luma, b, w, h);
    let xx: Vec<V> = combine(&l.times, &x, &x);
    let yy: Vec<V> = combine(&l.times, &y, &y);
    let xy: Vec<V> = combine(&l.times, &x, &y);
    let mean_x: Vec<V> = blur(&l.blend, l.zero, &x, wide, tall, &l.kernel);
    let mean_y: Vec<V> = blur(&l.blend, l.zero, &y, wide, tall, &l.kernel);
    let mean_xx: Vec<V> = blur(&l.blend, l.zero, &xx, wide, tall, &l.kernel);
    let mean_yy: Vec<V> = blur(&l.blend, l.zero, &yy, wide, tall, &l.kernel);
    let mean_xy: Vec<V> = blur(&l.blend, l.zero, &xy, wide, tall, &l.kernel);
    let mut total: T = l.none;
    let mut i: usize = 0;
    while i < n
        invariant
            likeness_calls_ok(*l),
            n == w * h,
            mean_x@ == windowed(l.blend, l.zero, l.kernel@, x@, w as int, h as int),
            mean_y@ == windowed(l.blend, l.zero, l.kernel@, y@, w as int, h as int),
            mean_xx@ == windowed(
                l.blend,
                l.zero,
                l.kernel@,
                pairwise(l.times, x@, x@),
                w as int,
                h as int,
            ),
            mean_yy@ == windowed(
                l.blend,
                l.zero,
                l.kernel@,
                pairwise(l.times, y@, y@),
                w as int,
                h as int,
            ),
            mean_xy@ == windowed(
                l.blend,
                l.zero,
                l.kernel@,
                pairwise(l.times, x@, y@),
                w as int,
                h as int,
            ),
            mean_x@.len() == n,
            mean_y@.len() == n,
            mean_xx@.len() == n,
            mean_yy@.len() == n,
            mean_xy@.len() == n,
            i <= n,
            total == likeness_sum(*l, x@, y@, w as int, h as int, i as int),
        decreases n - i,
    {
        let m = Moments {
            x: mean_x[i],
            y: mean_y[i],
            xx: mean_xx[i],
            yy: mean_yy[i],
            xy: mean_xy[i],
        };
        assert(m == moments_at(*l, x@, y@, w as int, h as int, i as int));
        total = call2(&l.plus, total, m);
        i = i + 1;
    }
    let s: i64 = call2(&l.mean, total, n);
    if s < l.low {
        l.low
    } else if s > l.high {
        l.high
    } else {
        s
    }
}

// ---- Comparison ---------------------------------------------------------

fn onto_background<C: Copy, D: Copy, FL: Fn(C) -> D>(lay: &FL, img: &Raster<C>) -> (on: Raster<D>)
    requires
        pure1(*lay),
        img.wf(),
    ensures
        on.width == img.width,
        on.height == img.height,
        on.data@ == laid(*lay, img.data@),
{
    let ghost all = laid(*lay, img.data@);
    let mut data: Vec<D> = Vec::new();
    let mut i: usize = 0;
    while i < img.data.len()
        invariant
            pure1(*lay),
            all == laid(*lay, img.data@),
            i <= img.data@.len(),
            data@ == all.take(i as int),
        decreases img.data@.len() - i,
    {
        data.push(call1(lay, img.data[i]));
        assert(all.take(i + 1) =~= all.take(i as int).push(all[i as int]));
        i = i + 1;
    }
    assert(all.take(i as int) =~= all);
    Raster { width: img.width, height: img.height, data }
}

/// `c` is how the images `a` and `b` compare.
pub open spec fn is_comparison<
    C,
    D,
    V,
    K,
    T,
    FL: Fn(C) -> D,
    FD: Fn(D, D) -> u64,
    FS: Fn(D, D) -> u64,
    FR: Fn(u128, usize) -> i64,
    FV: Fn(D) -> V,
    FM: Fn(V, V) -> V,
    FB: Fn(V, V, K) -> V,
    FP: Fn(T, Moments<V>) -> T,
    FN: Fn(T, usize) -> i64,
>(
    p: PixelCalls<FL, FD, FS, FR>,
    l: LikenessCalls<V, K, T, FV, FM, FB, FP, FN>,
    a: Raster<C>,
    b: Raster<C>,
    threshold: u64,
    c: Comparison,
) -> bool {
    let (x, y) = (laid(p.lay, a.data@), laid(p.lay, b.data@));
    let deltas = pairwise(p.delta, x, y);
    &&& c.pixels == deltas.len()
    &&& c.matched == matched(deltas, threshold)
    &&& c.total == summed(deltas)
    &&& is_p95(deltas, c.p95)
    &&& is_largest(deltas, c.largest)
    &&& c.squares == summed(pairwise(p.square, x, y))
    &&& c.psnr == capped(p.peak, p.cap, c.squares, c.pixels)
    &&& c.ssim == likeness(l, x, (a.width, a.height), y, (b.width, b.height))
}

/// Compare two images. A pixel matches where it differs by `threshold` at most once
/// both are on the background.
pub fn compare<
    C: Copy,
    D: Copy,
    V: Copy,
    K: Copy,
    T: Copy,
    FL: Fn(C) -> D,
    FD: Fn(D, D) -> u64,
    FS: Fn(D, D) -> u64,
    FR: Fn(u128, usize) -> i64,
    FV: Fn(D) -> V,
    FM: Fn(V, V) -> V,
    FB: Fn(V, V, K) -> V,
    FP: Fn(T, Moments<V>) -> T,
    FN: Fn(T, usize) -> i64,
>(
    p: &PixelCalls<FL, FD, FS, FR>,
    l: &LikenessCalls<V, K, T, FV, FM, FB, FP, FN>,
    original: &Raster<C>,
    rendered: &Raster<C>,
    threshold: u64,
) -> (c: Comparison)
    requires
        pixel_calls_ok(*p),
        likeness_calls_ok(*l),
        original.wf(),
        rendered.wf(),
    ensures
        is_comparison(*p, *l, *original, *rendered, threshold, c),
{
    let a: Raster<D> = onto_background(&p.lay, original);
    let b: Raster<D> = onto_background(&p.lay, rendered);
    let deltas: Vec<u64> = combine(&p.delta, &a.data, &b.data);
    let errors: Vec<u64> = combine(&p.square, &a.data, &b.data);
    let squares: u128 = sum(&errors);
    let psnr: i64 = if squares == 0 {
        p.cap
    } else {
        let v: i64 = call2(&p.peak, squares, deltas.len());
        if v > p.cap {
            p.cap
        } else {
            v
        }
    };
    Comparison {
        pixels: deltas.len(),
        matched: count_matched(&deltas, threshold),
        total: sum(&deltas),
        p95: p95(&deltas),
        largest: largest(&deltas),
        squares,
        psnr,
        ssim: ssim(l, &a, &b),
    }
}

/// The threshold decides what matches and nothing else: a higher one never matches
/// less, and leaves the rest of the comparison as it is.
pub proof fn law_the_threshold_only_moves_matches<
    C,
    D,
    V,
    K,
    T,
    FL: Fn(C) -> D,
    FD: Fn(D, D) -> u64,
    FS: Fn(D, D) -> u64,
    FR: Fn(u128, usize) -> i64,
    FV: Fn(D) -> V,
    FM: Fn(V, V) -> V,
    FB: Fn(V, V, K) -> V,
    FP: Fn(T, Moments<V>) -> T,
    FN: Fn(T, usize) -> i64,
>(
    p: PixelCalls<FL, FD, FS, FR>,
    l: LikenessCalls<V, K, T, FV, FM, FB, FP, FN>,
    a: Raster<C>,
    b: Raster<C>,
    low: u64,
    high: u64,
    c: Comparison,
    d: Comparison,
)
    requires
        low <= high,
        is_comparison(p, l, a, b, low, c),
        is_comparison(p, l, a, b, high, d),
    ensures
        c.matched <= d.matched,
        c.matched == d.matched ==> c == d,
        d == (Comparison { matched: d.matched, ..c }),
{
    let deltas = pairwise(p.delta, laid(p.lay, a.data@), laid(p.lay, b.data@));
    law_a_higher_threshold_never_matches_less(deltas, low, high);
    assert(deltas.len() == c.pixels);
    law_p95_is_unique(deltas, c.p95, d.p95);
    if deltas.len() > 0 {
        let i = choose|i: int| 0 <= i < deltas.len() && deltas[i] == c.largest;
        let j = choose|j: int| 0 <= j < deltas.len() && deltas[j] == d.largest;
        assert(deltas[i] <= d.largest && deltas[j] <= c.largest);
    }
}

/// What a comparison reports is within bounds: no more matches than there are
/// pixels, and all of them exactly where the largest difference is within the
/// threshold; the mean difference and the 95th percentile at most the largest; the
/// signal-to-noise ratio at most that of an exact match; and the similarity from
/// its lowest to its highest.
pub proof fn law_comparisons_are_within_bounds<
    C,
    D,
    V,
    K,
    T,
    FL: Fn(C) -> D,
    FD: Fn(D, D) -> u64,
    FS: Fn(D, D) -> u64,
    FR: Fn(u128, usize) -> i64,
    FV: Fn(D) -> V,
    FM: Fn(V, V) -> V,
    FB: Fn(V, V, K) -> V,
    FP: Fn(T, Moments<V>) -> T,
    FN: Fn(T, usize) -> i64,
>(
    p: PixelCalls<FL, FD, FS, FR>,
    l: LikenessCalls<V, K, T, FV, FM, FB, FP, FN>,
    a: Raster<C>,
    b: Raster<C>,
    threshold: u64,
    c: Comparison,
)
    requires
        is_comparison(p, l, a, b, threshold, c),
        l.low <= l.high,
    ensures
        c.matched <= c.pixels,
        c.matched == c.pixels <==> c.largest <= threshold,
        c.total <= c.pixels * c.largest,
        c.p95 <= c.largest,
        c.psnr <= p.cap,
        l.low <= c.ssim <= l.high,
{
    let deltas = pairwise(p.delta, laid(p.lay, a.data@), laid(p.lay, b.data@));
    law_all_match_iff_the_largest_does(deltas, threshold, c.largest);
    law_the_mean_is_at_most_the_largest(deltas, c.largest);
    law_p95_is_at_most_the_largest(deltas, c.p95, c.largest);
}

proof fn lemma_nothing_adds_up(values: Seq<u64>)
    requires
        forall|i: int| 0 <= i < values.len() ==> #[trigger] values[i] == 0,
    ensures
        summed(values) == 0,
{
    law_the_mean_is_at_most_the_largest(values, 0);
}

/// An image compared with itself matches everywhere, whatever the threshold, with
/// no difference and no error.
pub proof fn law_an_image_matches_itself<
    C,
    D,
    V,
    K,
    T,
    FL: Fn(C) -> D,
    FD: Fn(D, D) -> u64,
    FS: Fn(D, D) -> u64,
    FR: Fn(u128, usize) -> i64,
    FV: Fn(D) -> V,
    FM: Fn(V, V) -> V,
    FB: Fn(V, V, K) -> V,
    FP: Fn(T, Moments<V>) -> T,
    FN: Fn(T, usize) -> i64,
>(
    p: PixelCalls<FL, FD, FS, FR>,
    l: LikenessCalls<V, K, T, FV, FM, FB, FP, FN>,
    a: Raster<C>,
    threshold: u64,
    c: Comparison,
)
    requires
        is_comparison(p, l, a, a, threshold, c),
        forall|d: D| #[trigger] value2(p.delta, d, d) == 0,
        forall|d: D| #[trigger] value2(p.square, d, d) == 0,
    ensures
        c.pixels == a.data@.len(),
        c.matched == c.pixels,
        c.total == 0,
        c.p95 == 0,
        c.largest == 0,
        c.squares == 0,
        c.psnr == p.cap,
{
    let x = laid(p.lay, a.data@);
    let deltas = pairwise(p.delta, x, x);
    let errors = pairwise(p.square, x, x);
    assert forall|i: int| 0 <= i < deltas.len() implies #[trigger] deltas[i] == 0 by {
        assert(deltas[i] == value2(p.delta, x[i], x[i]));
    }
    assert forall|i: int| 0 <= i < errors.len() implies #[trigger] errors[i] == 0 by {
        assert(errors[i] == value2(p.square, x[i], x[i]));
    }
    law_no_difference_matches_everywhere(deltas, threshold, c.p95, c.largest);
    lemma_nothing_adds_up(deltas);
    lemma_nothing_adds_up(errors);
}

/// The same means with the two images exchanged.
pub open spec fn exchanged<V>(m: Moments<V>) -> Moments<V> {
    Moments { x: m.y, y: m.x, xx: m.yy, yy: m.xx, xy: m.xy }
}

proof fn lemma_moments_exchanged<
    D,
    V,
    K,
    T,
    FV: Fn(D) -> V,
    FM: Fn(V, V) -> V,
    FB: Fn(V, V, K) -> V,
    FP: Fn(T, Moments<V>) -> T,
    FN: Fn(T, usize) -> i64,
>(
    l: LikenessCalls<V, K, T, FV, FM, FB, FP, FN>,
    x: Seq<V>,
    y: Seq<V>,
    w: int,
    h: int,
    i: int,
)
    requires
        x.len() == y.len(),
        forall|a: V, b: V| #[trigger] value2(l.times, a, b) == value2(l.times, b, a),
    ensures
        moments_at(l, y, x, w, h, i) == exchanged(moments_at(l, x, y, w, h, i)),
{
    assert(pairwise(l.times, x, y) =~= pairwise(l.times, y, x)) by {
        assert forall|k: int| 0 <= k < x.len() implies #[trigger] pairwise(l.times, x, y)[k]
            == pairwise(l.times, y, x)[k] by {
            assert(value2(l.times, x[k], y[k]) == value2(l.times, y[k], x[k]));
        }
    }
}

proof fn lemma_likeness_sum_exchanged<
    D,
    V,
    K,
    T,
    FV: Fn(D) -> V,
    FM: Fn(V, V) -> V,
    FB: Fn(V, V, K) -> V,
    FP: Fn(T, Moments<V>) -> T,
    FN: Fn(T, usize) -> i64,
>(
    l: LikenessCalls<V, K, T, FV, FM, FB, FP, FN>,
    x: Seq<V>,
    y: Seq<V>,
    w: int,
    h: int,
    k: int,
)
    requires
        x.len() == y.len(),
        forall|a: V, b: V| #[trigger] value2(l.times, a, b) == value2(l.times, b, a),
        forall|sum: T, m: Moments<V>| #[trigger]
            value2(l.plus, sum, m) == value2(l.plus, sum, exchanged(m)),
    ensures
        likeness_sum(l, x, y, w, h, k) == likeness_sum(l, y, x, w, h, k),
    decreases k,
{
    if k > 0 {
        lemma_likeness_sum_exchanged(l, x, y, w, h, k - 1);
        lemma_moments_exchanged(l, x, y, w, h, k - 1);
        let before = likeness_sum(l, x, y, w, h, k - 1);
        let m = moments_at(l, x, y, w, h, k - 1);
        assert(value2(l.plus, before, m) == value2(l.plus, before, exchanged(m)));
    }
}

/// Similarity does not depend on which image is the original: exchanging the two
/// changes nothing, where multiplying and adding up do not tell them apart either.
pub proof fn law_similarity_is_symmetric<
    D,
    V,
    K,
    T,
    FV: Fn(D) -> V,
    FM: Fn(V, V) -> V,
    FB: Fn(V, V, K) -> V,
    FP: Fn(T, Moments<V>) -> T,
    FN: Fn(T, usize) -> i64,
>(
    l: LikenessCalls<V, K, T, FV, FM, FB, FP, FN>,
    a: Seq<D>,
    a_size: (u32, u32),
    b: Seq<D>,
    b_size: (u32, u32),
)
    requires
        forall|u: V, v: V| #[trigger] value2(l.times, u, v) == value2(l.times, v, u),
        forall|sum: T, m: Moments<V>| #[trigger]
            value2(l.plus, sum, m) == value2(l.plus, sum, exchanged(m)),
    ensures
        likeness(l, a, a_size, b, b_size) == likeness(l, b, b_size, a, a_size),
{
    let w = lesser(a_size.0 as int, b_size.0 as int);
    let h = lesser(a_size.1 as int, b_size.1 as int);
    let x = lumas(l.luma, a, a_size.0, w, h);
    let y = lumas(l.luma, b, b_size.0, w, h);
    lemma_likeness_sum_exchanged(l, x, y, w, h, w * h);
}

/// What a window of one value throughout sees, across and then down.
pub open spec fn twice_through<V, K, FB: Fn(V, V, K) -> V>(
    blend: FB,
    zero: V,
    kernel: Seq<K>,
    v: V,
) -> V {
    through(blend, zero, kernel, through(blend, zero, kernel, v))
}

/// Where an image has one value throughout, the means around every pixel are those
/// of that value and of its own square, whichever of the two images it is and
/// whatever the other one holds.
pub proof fn law_means_of_one_value<
    D,
    V,
    K,
    T,
    FV: Fn(D) -> V,
    FM: Fn(V, V) -> V,
    FB: Fn(V, V, K) -> V,
    FP: Fn(T, Moments<V>) -> T,
    FN: Fn(T, usize) -> i64,
>(
    l: LikenessCalls<V, K, T, FV, FM, FB, FP, FN>,
    x: Seq<V>,
    y: Seq<V>,
    w: int,
    h: int,
    v: V,
    i: int,
)
    requires
        0 < w,
        0 < h,
        x.len() == w * h,
        y.len() == w * h,
        0 <= i < w * h,
    ensures
        (forall|k: int| 0 <= k < x.len() ==> #[trigger] x[k] == v) ==> moments_at(l, x, y, w, h, i).x
            == twice_through(l.blend, l.zero, l.kernel@, v) && moments_at(l, x, y, w, h, i).xx
            == twice_through(l.blend, l.zero, l.kernel@, value2(l.times, v, v)),
        (forall|k: int| 0 <= k < y.len() ==> #[trigger] y[k] == v) ==> moments_at(l, x, y, w, h, i).y
            == twice_through(l.blend, l.zero, l.kernel@, v) && moments_at(l, x, y, w, h, i).yy
            == twice_through(l.blend, l.zero, l.kernel@, value2(l.times, v, v)),
        (forall|k: int| 0 <= k < x.len() ==> #[trigger] x[k] == v) && (forall|k: int|
            0 <= k < y.len() ==> #[trigger] y[k] == v) ==> moments_at(
            l,
            x,
            y,
            w,
            h,
            i,
        ).xy == twice_through(l.blend, l.zero, l.kernel@, value2(l.times, v, v)),
{
    let sq = value2(l.times, v, v);
    if forall|k: int| 0 <= k < x.len() ==> #[trigger] x[k] == v {
        let xx = pairwise(l.times, x, x);
        assert forall|k: int| 0 <= k < xx.len() implies #[trigger] xx[k] == sq by {
            assert(x[k] == v);
        }
        law_blurring_one_value_leaves_one(l.blend, l.zero, x, w, h, l.kernel@, v, i);
        law_blurring_one_value_leaves_one(l.blend, l.zero, xx, w, h, l.kernel@, sq, i);
    }
    if forall|k: int| 0 <= k < y.len() ==> #[trigger] y[k] == v {
        let yy = pairwise(l.times, y, y);
        assert forall|k: int| 0 <= k < yy.len() implies #[trigger] yy[k] == sq by {
            assert(y[k] == v);
        }
        law_blurring_one_value_leaves_one(l.blend, l.zero, y, w, h, l.kernel@, v, i);
        law_blurring_one_value_leaves_one(l.blend, l.zero, yy, w, h, l.kernel@, sq, i);
    }
    if (forall|k: int| 0 <= k < x.len() ==> #[trigger] x[k] == v) && (forall|k: int|
        0 <= k < y.len() ==> #[trigger] y[k] == v) {
        let xy = pairwise(l.times, x, y);
        assert forall|k: int| 0 <= k < xy.len() implies #[trigger] xy[k] == sq by {
            assert(x[k] == v && y[k] == v);
        }
        law_blurring_one_value_leaves_one(l.blend, l.zero, xy, w, h, l.kernel@, sq, i);
    }
}

/// Compared with itself, an image is as alike around every pixel as it can be: the
/// means of both are the same, and the mean product is the mean square.
pub proof fn law_means_of_an_image_with_itself<
    D,
    V,
    K,
    T,
    FV: Fn(D) -> V,
    FM: Fn(V, V) -> V,
    FB: Fn(V, V, K) -> V,
    FP: Fn(T, Moments<V>) -> T,
    FN: Fn(T, usize) -> i64,
>(
    l: LikenessCalls<V, K, T, FV, FM, FB, FP, FN>,
    x: Seq<V>,
    w: int,
    h: int,
    i: int,
)
    ensures
        ({
            let m = moments_at(l, x, x, w, h, i);
            m.x == m.y && m.xx == m.yy && m.xy == m.xx
        }),
{
}

/// Through a window of one tap, the means around a pixel are those of that very pixel
/// of either image.
pub proof fn law_means_of_one_tap<
    D,
    V,
    K,
    T,
    FV: Fn(D) -> V,
    FM: Fn(V, V) -> V,
    FB: Fn(V, V, K) -> V,
    FP: Fn(T, Moments<V>) -> T,
    FN: Fn(T, usize) -> i64,
>(
    l: LikenessCalls<V, K, T, FV, FM, FB, FP, FN>,
    x: Seq<V>,
    y: Seq<V>,
    w: int,
    h: int,
    i: int,
)
    requires
        0 < w,
        0 < h,
        x.len() == w * h,
        y.len() == w * h,
        l.kernel@.len() == 1,
        0 <= i < w * h,
    ensures
        ({
            let m = moments_at(l, x, y, w, h, i);
            let k = l.kernel@[0];
            let see = |u: V| value3(l.blend, l.zero, value3(l.blend, l.zero, u, k), k);
            &&& m.x == see(x[i])
            &&& m.y == see(y[i])
            &&& m.xx == see(value2(l.times, x[i], x[i]))
            &&& m.yy == see(value2(l.times, y[i], y[i]))
            &&& m.xy == see(value2(l.times, x[i], y[i]))
        }),
{
    let kernel = l.kernel@;
    law_one_tap_looks_at_the_pixel_itself(l.blend, l.zero, x, w, h, kernel, i);
    law_one_tap_looks_at_the_pixel_itself(l.blend, l.zero, y, w, h, kernel, i);
    law_one_tap_looks_at_the_pixel_itself(
        l.blend,
        l.zero,
        pairwise(l.times, x, x),
        w,
        h,
        kernel,
        i,
    );
    law_one_tap_looks_at_the_pixel_itself(
        l.blend,
        l.zero,
        pairwise(l.times, y, y),
        w,
        h,
        kernel,
        i,
    );
    law_one_tap_looks_at_the_pixel_itself(
        l.blend,
        l.zero,
        pairwise(l.times, x, y),
        w,
        h,
        kernel,
        i,
    );
}

// ---- Pixel by pixel -----------------------------------------------------

/// Whether pixel `i` of two images differs by `threshold` at most, once both are on the
/// background.
pub open spec fn is_alike<C, D, FL: Fn(C) -> D, FD: Fn(D, D) -> u64>(
    lay: FL,
    delta: FD,
    a: Seq<C>,
    b: Seq<C>,
    threshold: u64,
    i: int,
) -> bool {
    value2(delta, value1(lay, a[i]), value1(lay, b[i])) <= threshold
}

proof fn lemma_matched(deltas: Seq<u64>, threshold: u64)
    ensures
        matched(deltas, threshold) == Seq::new(deltas.len(), |i: int| i).filter(
            |i: int| deltas[i] <= threshold,
        ).len(),
    decreases deltas.len(),
{
    lemma_matched_upto(deltas, threshold, deltas.len() as int);
    assert(deltas.take(deltas.len() as int) =~= deltas);
}

proof fn lemma_matched_upto(deltas: Seq<u64>, threshold: u64, k: int)
    requires
        0 <= k <= deltas.len(),
    ensures
        matched(deltas.take(k), threshold) == Seq::new(k as nat, |i: int| i).filter(
            |i: int| deltas[i] <= threshold,
        ).len(),
    decreases k,
{
    reveal(Seq::filter);
    if k > 0 {
        lemma_matched_upto(deltas, threshold, k - 1);
        let all = Seq::new(k as nat, |i: int| i);
        assert(all.drop_last() =~= Seq::new((k - 1) as nat, |i: int| i));
        assert(deltas.take(k).drop_last() =~= deltas.take(k - 1));
        assert(deltas.take(k).last() == deltas[k - 1]);
    }
}

proof fn lemma_filter_same(n: nat, f: spec_fn(int) -> bool, g: spec_fn(int) -> bool)
    requires
        forall|i: int| 0 <= i < n ==> #[trigger] f(i) == g(i),
    ensures
        Seq::new(n, |i: int| i).filter(f) == Seq::new(n, |i: int| i).filter(g),
    decreases n,
{
    reveal(Seq::filter);
    if n > 0 {
        lemma_filter_same((n - 1) as nat, f, g);
        let all = Seq::new(n, |i: int| i);
        assert(all.drop_last() =~= Seq::new((n - 1) as nat, |i: int| i));
        assert(f(n - 1) == g(n - 1));
    }
}

/// Two images are compared over the pixels that both have: those that match are counted,
/// no difference is greater than the largest, the difference at one of them is the largest,
/// and the ratio of the peak to the noise is the cap where there is no noise, and never more.
pub proof fn law_images_are_compared_pixel_by_pixel<
    C,
    D,
    V,
    K,
    T,
    FL: Fn(C) -> D,
    FD: Fn(D, D) -> u64,
    FS: Fn(D, D) -> u64,
    FR: Fn(u128, usize) -> i64,
    FV: Fn(D) -> V,
    FM: Fn(V, V) -> V,
    FB: Fn(V, V, K) -> V,
    FP: Fn(T, Moments<V>) -> T,
    FN: Fn(T, usize) -> i64,
>(
    p: PixelCalls<FL, FD, FS, FR>,
    l: LikenessCalls<V, K, T, FV, FM, FB, FP, FN>,
    a: Raster<C>,
    b: Raster<C>,
    threshold: u64,
    c: Comparison,
    i: int,
)
    requires
        is_comparison(p, l, a, b, threshold, c),
        0 <= i < a.data@.len(),
        i < b.data@.len(),
    ensures
        c.pixels == (if a.data@.len() <= b.data@.len() {
            a.data@.len()
        } else {
            b.data@.len()
        }),
        c.matched == Seq::new(c.pixels as nat, |k: int| k).filter(
            |k: int| is_alike(p.lay, p.delta, a.data@, b.data@, threshold, k),
        ).len(),
        value2(p.delta, value1(p.lay, a.data@[i]), value1(p.lay, b.data@[i])) <= c.largest,
        exists|k: int|
            0 <= k < c.pixels && c.largest == value2(
                p.delta,
                value1(p.lay, #[trigger] a.data@[k]),
                value1(p.lay, b.data@[k]),
            ),
        c.psnr <= p.cap,
        c.squares == 0 ==> c.psnr == p.cap,
        c.squares > 0 && value2(p.peak, c.squares, c.pixels) <= p.cap ==> c.psnr == value2(
            p.peak,
            c.squares,
            c.pixels,
        ),
{
    let (x, y) = (laid(p.lay, a.data@), laid(p.lay, b.data@));
    let deltas = pairwise(p.delta, x, y);
    lemma_matched(deltas, threshold);
    let f = |k: int| deltas[k] <= threshold;
    let g = |k: int| is_alike(p.lay, p.delta, a.data@, b.data@, threshold, k);
    lemma_filter_same(deltas.len(), f, g);
    assert(deltas[i] <= c.largest);
    assert(deltas.contains(c.largest));
    let k = choose|k: int| 0 <= k < deltas.len() && deltas[k] == c.largest;
    let q = a.data@[k];
}

/// The lightness that is compared at column `x` of row `y` is that of the pixel there,
/// however wide the image is.
pub proof fn law_lightness_is_of_the_pixel<D, V, FV: Fn(D) -> V>(
    luma: FV,
    data: Seq<D>,
    width: u32,
    w: int,
    h: int,
    x: int,
    y: int,
)
    requires
        0 <= x < w,
        0 <= y < h,
    ensures
        lumas(luma, data, width, w, h).len() == w * h,
        lumas(luma, data, width, w, h)[y * w + x] == value1(luma, data[y * width + x]),
{
    vstd::arithmetic::div_mod::lemma_fundamental_div_mod_converse(y * w + x, w, y, x);
    assert(0 <= y * w + x < w * h) by (nonlinear_arith)
        requires
            0 <= x < w,
            0 <= y < h,
    ;
}

/// The similarity is the mean over every pixel that both images have of how alike they are
/// around it, from the first on, kept within its bounds; images that share no pixel are not
/// alike at all.
pub proof fn law_similarity_is_the_mean_over_the_pixels<
    D,
    V,
    K,
    T,
    FV: Fn(D) -> V,
    FM: Fn(V, V) -> V,
    FB: Fn(V, V, K) -> V,
    FP: Fn(T, Moments<V>) -> T,
    FN: Fn(T, usize) -> i64,
>(
    l: LikenessCalls<V, K, T, FV, FM, FB, FP, FN>,
    a: Seq<D>,
    a_size: (u32, u32),
    b: Seq<D>,
    b_size: (u32, u32),
)
    requires
        l.low <= l.high,
    ensures
        ({
            let w = if a_size.0 <= b_size.0 {
                a_size.0 as int
            } else {
                b_size.0 as int
            };
            let h = if a_size.1 <= b_size.1 {
                a_size.1 as int
            } else {
                b_size.1 as int
            };
            let x = lumas(l.luma, a, a_size.0, w, h);
            let y = lumas(l.luma, b, b_size.0, w, h);
            let sum = Seq::new((w * h) as nat, |i: int| moments_at(l, x, y, w, h, i)).fold_left(
                l.none,
                |t: T, m: Moments<V>| value2(l.plus, t, m),
            );
            let mean = value2(l.mean, sum, (w * h) as usize);
            let s = likeness(l, a, a_size, b, b_size);
            &&& l.low <= s <= l.high
            &&& w == 0 || h == 0 ==> s == l.low
            &&& w > 0 && h > 0 && l.low <= mean <= l.high ==> s == mean
            &&& w > 0 && h > 0 && mean > l.high ==> s == l.high
            &&& w > 0 && h > 0 && mean < l.low ==> s == l.low
        }),
{
    let w = lesser(a_size.0 as int, b_size.0 as int);
    let h = lesser(a_size.1 as int, b_size.1 as int);
    let x = lumas(l.luma, a, a_size.0, w, h);
    let y = lumas(l.luma, b, b_size.0, w, h);
    if w > 0 && h > 0 {
        assert(w * h >= 0) by (nonlinear_arith)
            requires
                w > 0,
                h > 0,
        ;
        lemma_likeness_fold(l, x, y, w, h, w * h);
    }
}

proof fn lemma_likeness_fold<
    D,
    V,
    K,
    T,
    FV: Fn(D) -> V,
    FM: Fn(V, V) -> V,
    FB: Fn(V, V, K) -> V,
    FP: Fn(T, Moments<V>) -> T,
    FN: Fn(T, usize) -> i64,
>(
    l: LikenessCalls<V, K, T, FV, FM, FB, FP, FN>,
    x: Seq<V>,
    y: Seq<V>,
    w: int,
    h: int,
    k: int,
)
    requires
        k >= 0,
    ensures
        likeness_sum(l, x, y, w, h, k) == Seq::new(
            k as nat,
            |i: int| moments_at(l, x, y, w, h, i),
        ).fold_left(l.none, |t: T, m: Moments<V>| value2(l.plus, t, m)),
    decreases k,
{
    if k > 0 {
        lemma_likeness_fold(l, x, y, w, h, k - 1);
        let all = Seq::new(k as nat, |i: int| moments_at(l, x, y, w, h, i));
        assert(all.drop_last() =~= Seq::new((k - 1) as nat, |i: int| moments_at(l, x, y, w, h, i)));
        assert(all.last() == moments_at(l, x, y, w, h, k - 1));
    }
}

} // verus!
