//! Filters that look at a window around every pixel: edge-preserving smoothing,
//! blurring, and the flatness of a neighbourhood.

use crate::pure::{
    call1, call2, call3, call4, pure1, pure2, pure3, pure4, value1, value2, value3, value4,
};
use crate::raster::{clamped, lemma_cell, Raster};
use vstd::prelude::*;

verus! {

// ---- Smoothing ----------------------------------------------------------

/// The length of a side of the window with the given radius.
pub open spec fn window_side(radius: u32) -> int {
    2 * radius + 1
}

/// What has been gathered from the first `k` cells of the window around a pixel,
/// row by row. Neighbours outside the image are skipped rather than clamped,
/// which keeps the border from over-weighting its own edge pixels. `add` takes
/// what was gathered, the places of the pixel and of the neighbour, and the cell
/// of the window.
pub open spec fn window_sum<A, F: Fn(A, usize, usize, usize) -> A>(
    add: F,
    zero: A,
    width: int,
    height: int,
    radius: u32,
    x: int,
    y: int,
    k: int,
) -> A
    decreases k,
{
    if k <= 0 {
        zero
    } else {
        let acc = window_sum(add, zero, width, height, radius, x, y, k - 1);
        let sx = x + (k - 1) % window_side(radius) - radius;
        let sy = y + (k - 1) / window_side(radius) - radius;
        if 0 <= sx < width && 0 <= sy < height {
            value4(
                add,
                acc,
                (y * width + x) as usize,
                (sy * width + sx) as usize,
                (k - 1) as usize,
            )
        } else {
            acc
        }
    }
}

/// The smoothed pixel: `finish` makes it of what the window gave and the pixel
/// itself.
pub open spec fn smoothed<
    C,
    A,
    F: Fn(A, usize, usize, usize) -> A,
    G: Fn(A, C) -> C,
>(add: F, finish: G, zero: A, src: Raster<C>, radius: u32, x: int, y: int) -> C {
    let side = window_side(radius);
    value2(
        finish,
        window_sum(
            add,
            zero,
            src.width as int,
            src.height as int,
            radius,
            x,
            y,
            side * side,
        ),
        src.pixel(x, y),
    )
}

/// Smooth one pixel.
pub fn bilateral_pixel<
    C: Copy,
    A,
    F: Fn(A, usize, usize, usize) -> A,
    G: Fn(A, C) -> C,
>(add: &F, finish: &G, zero: A, src: &Raster<C>, radius: u32, x: u32, y: u32) -> (c: C)
    requires
        pure4(*add),
        pure2(*finish),
        src.wf(),
        x < src.width,
        y < src.height,
        window_side(radius) * window_side(radius) <= usize::MAX,
    ensures
        c == smoothed(*add, *finish, zero, *src, radius, x as int, y as int),
{
    let n: usize = src.data.len();
    proof {
        lemma_cell(x as int, y as int, src.width as int, src.height as int);
    }
    let at: usize = src.idx(x, y);
    let side: u64 = 2 * (radius as u64) + 1;
    let ghost s = window_side(radius);
    assert(s <= s * s) by (nonlinear_arith)
        requires
            s >= 1,
    ;
    let cells: usize = side as usize * side as usize;
    let ghost start = zero;
    let mut acc: A = zero;
    let mut k: usize = 0;
    while k < cells
        invariant
            pure4(*add),
            src.wf(),
            x < src.width,
            y < src.height,
            n == src.data@.len(),
            at == y * src.width + x,
            side == s,
            s == window_side(radius),
            cells == s * s,
            s <= usize::MAX,
            k <= cells,
            acc == window_sum(
                *add,
                start,
                src.width as int,
                src.height as int,
                radius,
                x as int,
                y as int,
                k as int,
            ),
        decreases cells - k,
    {
        assert(k / (s as usize) < s && k % (s as usize) < s) by (nonlinear_arith)
            requires
                0 <= k < s * s,
                s >= 1,
                s <= usize::MAX,
        ;
        let sx: i64 = x as i64 + (k as u64 % side) as i64 - radius as i64;
        let sy: i64 = y as i64 + (k as u64 / side) as i64 - radius as i64;
        if 0 <= sx && sx < src.width as i64 && 0 <= sy && sy < src.height as i64 {
            proof {
                lemma_cell(sx as int, sy as int, src.width as int, src.height as int);
            }
            let near: usize = src.idx(sx as u32, sy as u32);
            acc = call4(add, acc, at, near, k);
        }
        k = k + 1;
    }
    let own: C = src.get(x, y);
    call2(finish, acc, own)
}

/// A copy of the pixels.
fn copy_pixels<C: Copy>(v: &Vec<C>) -> (c: Vec<C>)
    ensures
        c@ == v@,
{
    let mut c: Vec<C> = Vec::new();
    let mut i: usize = 0;
    while i < v.len()
        invariant
            i <= v@.len(),
            c@ == v@.take(i as int),
        decreases v@.len() - i,
    {
        c.push(v[i]);
        assert(v@.take(i + 1) =~= v@.take(i as int).push(v@[i as int]));
        i = i + 1;
    }
    assert(v@.take(i as int) =~= v@);
    c
}

/// The column and the row of a pixel.
proof fn lemma_place(i: int, w: int, h: int)
    requires
        0 <= i < w * h,
        w > 0,
    ensures
        0 <= i % w < w,
        0 <= i / w < h,
        (i / w) * w + i % w == i,
{
    assert(0 <= i % w < w && 0 <= i / w < h && (i / w) * w + i % w == i) by (nonlinear_arith)
        requires
            0 <= i < w * h,
            w > 0,
    ;
}

/// Bilateral-filter an image. With a radius of 0, or where `ranged` says that no
/// difference in colour counts as small, it is left as it is. See
/// [`window_sum`] and [`smoothed`] for the callbacks.
pub fn bilateral<
    C: Copy,
    A: Copy,
    F: Fn(A, usize, usize, usize) -> A,
    G: Fn(A, C) -> C,
>(add: &F, finish: &G, zero: A, src: &Raster<C>, radius: u32, ranged: bool) -> (out: Raster<C>)
    requires
        pure4(*add),
        pure2(*finish),
        src.wf(),
        window_side(radius) * window_side(radius) <= usize::MAX,
    ensures
        out.width == src.width,
        out.height == src.height,
        out.wf(),
        radius == 0 || !ranged ==> out.data@ == src.data@,
        radius > 0 && ranged ==> forall|i: int|
            0 <= i < src.data@.len() ==> #[trigger] out.data@[i] == smoothed(
                *add,
                *finish,
                zero,
                *src,
                radius,
                i % (src.width as int),
                i / (src.width as int),
            ),
{
    if src.data.len() == 0 || radius == 0 || !ranged {
        return Raster { width: src.width, height: src.height, data: copy_pixels(&src.data) };
    }
    let n: usize = src.data.len();
    let w: usize = src.width as usize;
    assert(w > 0) by (nonlinear_arith)
        requires
            n == src.width * src.height,
            n > 0,
            w == src.width,
    ;
    let mut data: Vec<C> = Vec::new();
    let mut i: usize = 0;
    while i < n
        invariant
            pure4(*add),
            pure2(*finish),
            src.wf(),
            n == src.data@.len(),
            w == src.width,
            w > 0,
            window_side(radius) * window_side(radius) <= usize::MAX,
            i <= n,
            data@.len() == i,
            forall|j: int|
                0 <= j < i ==> #[trigger] data@[j] == smoothed(
                    *add,
                    *finish,
                    zero,
                    *src,
                    radius,
                    j % (src.width as int),
                    j / (src.width as int),
                ),
        decreases n - i,
    {
        proof {
            lemma_place(i as int, src.width as int, src.height as int);
        }
        let c: C = bilateral_pixel(
            add,
            finish,
            zero,
            src,
            radius,
            (i % w) as u32,
            (i / w) as u32,
        );
        data.push(c);
        i = i + 1;
    }
    Raster { width: src.width, height: src.height, data }
}

// ---- Blurring -----------------------------------------------------------

/// `x` moved by `i - r` and kept within `n` places.
pub open spec fn nudged(x: int, i: int, r: int, n: int) -> int {
    clamped(x + i - r, n - 1)
}

fn nudge(x: usize, i: usize, r: usize, n: usize) -> (p: usize)
    requires
        x < n,
    ensures
        p == nudged(x as int, i as int, r as int, n as int),
{
    if i >= r {
        let d: usize = i - r;
        if d > n - 1 - x {
            n - 1
        } else {
            x + d
        }
    } else {
        let d: usize = r - i;
        if d > x {
            0
        } else {
            x - d
        }
    }
}

/// The weighted sum along a row of `n` places, `from` on: what the first `k` taps
/// of the kernel, centred on place `x`, give. Consecutive places are `step` apart.
pub open spec fn taps<V, K, F: Fn(V, V, K) -> V>(
    add: F,
    zero: V,
    src: Seq<V>,
    kernel: Seq<K>,
    from: int,
    step: int,
    n: int,
    x: int,
    k: int,
) -> V
    decreases k,
{
    if k <= 0 {
        zero
    } else {
        let r = (kernel.len() - 1) / 2;
        value3(
            add,
            taps(add, zero, src, kernel, from, step, n, x, k - 1),
            src[from + nudged(x, k - 1, r, n) * step],
            kernel[k - 1],
        )
    }
}

fn weighted<V: Copy, K: Copy, F: Fn(V, V, K) -> V>(
    add: &F,
    zero: V,
    src: &Vec<V>,
    kernel: &Vec<K>,
    from: usize,
    step: usize,
    n: usize,
    x: usize,
) -> (v: V)
    requires
        pure3(*add),
        kernel@.len() > 0,
        x < n,
        from + (n - 1) * step < src@.len(),
    ensures
        v == taps(
            *add,
            zero,
            src@,
            kernel@,
            from as int,
            step as int,
            n as int,
            x as int,
            kernel@.len() as int,
        ),
{
    let r: usize = (kernel.len() - 1) / 2;
    let len: usize = src.len();
    let mut acc: V = zero;
    let mut k: usize = 0;
    while k < kernel.len()
        invariant
            pure3(*add),
            k <= kernel@.len(),
            r == (kernel@.len() - 1) / 2,
            x < n,
            len == src@.len(),
            from + (n - 1) * step < len,
            acc == taps(
                *add,
                zero,
                src@,
                kernel@,
                from as int,
                step as int,
                n as int,
                x as int,
                k as int,
            ),
        decreases kernel@.len() - k,
    {
        let p: usize = nudge(x, k, r, n);
        assert(0 <= p * step <= (n - 1) * step) by (nonlinear_arith)
            requires
                0 <= p <= n - 1,
                step >= 0,
        ;
        acc = call3(add, acc, src[from + p * step], kernel[k]);
        k = k + 1;
    }
    acc
}

/// The image blurred along its rows.
pub open spec fn blurred_across<V, K, F: Fn(V, V, K) -> V>(
    add: F,
    zero: V,
    src: Seq<V>,
    w: int,
    kernel: Seq<K>,
) -> Seq<V> {
    Seq::new(
        src.len(),
        |i: int|
            taps(add, zero, src, kernel, (i / w) * w, 1, w, i % w, kernel.len() as int),
    )
}

/// The image blurred along its columns.
pub open spec fn blurred_down<V, K, F: Fn(V, V, K) -> V>(
    add: F,
    zero: V,
    src: Seq<V>,
    w: int,
    h: int,
    kernel: Seq<K>,
) -> Seq<V> {
    Seq::new(
        src.len(),
        |i: int| taps(add, zero, src, kernel, i % w, w, h, i / w, kernel.len() as int),
    )
}

/// Separable blur with edge clamping: along the rows, then along the columns of
/// the result.
pub fn blur<V: Copy, K: Copy, F: Fn(V, V, K) -> V>(
    add: &F,
    zero: V,
    src: &Vec<V>,
    w: usize,
    h: usize,
    kernel: &Vec<K>,
) -> (out: Vec<V>)
    requires
        pure3(*add),
        kernel@.len() > 0,
        src@.len() == w * h,
    ensures
        out@ == blurred_down(
            *add,
            zero,
            blurred_across(*add, zero, src@, w as int, kernel@),
            w as int,
            h as int,
            kernel@,
        ),
{
    let n: usize = src.len();
    let mut tmp: Vec<V> = Vec::new();
    let mut i: usize = 0;
    while i < n
        invariant
            pure3(*add),
            kernel@.len() > 0,
            n == src@.len(),
            n == w * h,
            i <= n,
            tmp@ == blurred_across(*add, zero, src@, w as int, kernel@).take(i as int),
        decreases n - i,
    {
        proof {
            lemma_row(i as int, w as int, h as int);
        }
        let row: usize = i / w * w;
        tmp.push(weighted(add, zero, src, kernel, row, 1, w, i % w));
        proof {
            let all = blurred_across(*add, zero, src@, w as int, kernel@);
            assert(all.take(i + 1) =~= all.take(i as int).push(all[i as int]));
        }
        i = i + 1;
    }
    let ghost across = blurred_across(*add, zero, src@, w as int, kernel@);
    assert(across.take(n as int) =~= across);
    let mut out: Vec<V> = Vec::new();
    let mut i: usize = 0;
    while i < n
        invariant
            pure3(*add),
            kernel@.len() > 0,
            n == tmp@.len(),
            n == w * h,
            i <= n,
            out@ == blurred_down(*add, zero, tmp@, w as int, h as int, kernel@).take(i as int),
        decreases n - i,
    {
        proof {
            lemma_row(i as int, w as int, h as int);
        }
        out.push(weighted(add, zero, &tmp, kernel, i % w, w, h, i / w));
        proof {
            let all = blurred_down(*add, zero, tmp@, w as int, h as int, kernel@);
            assert(all.take(i + 1) =~= all.take(i as int).push(all[i as int]));
        }
        i = i + 1;
    }
    proof {
        let all = blurred_down(*add, zero, tmp@, w as int, h as int, kernel@);
        assert(all.take(n as int) =~= all);
    }
    out
}

/// Where the row and the column of a pixel begin and end.
proof fn lemma_row(i: int, w: int, h: int)
    requires
        0 <= i < w * h,
        w >= 0,
    ensures
        w > 0,
        0 <= i % w < w,
        0 <= i / w < h,
        0 <= (i / w) * w <= i,
        (i / w) * w + (w - 1) * 1 < w * h,
        i % w + (h - 1) * w < w * h,
{
    assert(w > 0) by (nonlinear_arith)
        requires
            0 <= i < w * h,
            w >= 0,
    ;
    lemma_place(i, w, h);
    let y = i / w;
    assert(y * w + (w - 1) < w * h && 0 <= y * w && (h - 1) * w + w == w * h) by (nonlinear_arith)
        requires
            0 <= y < h,
            w > 0,
    ;
}

/// What a window of one value throughout sees.
pub open spec fn through<V, K, F: Fn(V, V, K) -> V>(
    add: F,
    zero: V,
    kernel: Seq<K>,
    v: V,
) -> V
    decreases kernel.len(),
{
    if kernel.len() == 0 {
        zero
    } else {
        value3(add, through(add, zero, kernel.drop_last(), v), v, kernel.last())
    }
}

proof fn lemma_taps_alike<V, K, F: Fn(V, V, K) -> V>(
    add: F,
    zero: V,
    src: Seq<V>,
    kernel: Seq<K>,
    from: int,
    step: int,
    n: int,
    x: int,
    k: int,
    v: V,
)
    requires
        0 <= k <= kernel.len(),
        0 <= x < n,
        0 <= from,
        0 <= step,
        from + (n - 1) * step < src.len(),
        forall|i: int| 0 <= i < src.len() ==> #[trigger] src[i] == v,
    ensures
        taps(add, zero, src, kernel, from, step, n, x, k) == through(add, zero, kernel.take(k), v),
    decreases k,
{
    if k > 0 {
        lemma_taps_alike(add, zero, src, kernel, from, step, n, x, k - 1, v);
        assert(kernel.take(k).drop_last() =~= kernel.take(k - 1));
        let p = nudged(x, k - 1, (kernel.len() - 1) / 2, n);
        assert(0 <= p * step <= (n - 1) * step) by (nonlinear_arith)
            requires
                0 <= p <= n - 1,
                step >= 0,
        ;
        assert(src[from + p * step] == v);
    } else {
        assert(kernel.take(0).len() == 0);
    }
}

/// Blurring an image of one value leaves one value: that of the window, seen
/// across and then down.
pub proof fn law_blurring_one_value_leaves_one<V, K, F: Fn(V, V, K) -> V>(
    add: F,
    zero: V,
    src: Seq<V>,
    w: int,
    h: int,
    kernel: Seq<K>,
    v: V,
    i: int,
)
    requires
        0 < w,
        0 < h,
        src.len() == w * h,
        forall|i: int| 0 <= i < src.len() ==> #[trigger] src[i] == v,
        0 <= i < src.len(),
    ensures
        blurred_across(add, zero, src, w, kernel)[i] == through(add, zero, kernel, v),
        blurred_down(add, zero, blurred_across(add, zero, src, w, kernel), w, h, kernel)[i]
            == through(add, zero, kernel, through(add, zero, kernel, v)),
{
    let across = blurred_across(add, zero, src, w, kernel);
    let u = through(add, zero, kernel, v);
    assert(kernel.take(kernel.len() as int) =~= kernel);
    assert forall|j: int| 0 <= j < across.len() implies #[trigger] across[j] == u by {
        lemma_row(j, w, h);
        lemma_taps_alike(
            add,
            zero,
            src,
            kernel,
            (j / w) * w,
            1,
            w,
            j % w,
            kernel.len() as int,
            v,
        );
    }
    lemma_row(i, w, h);
    lemma_taps_alike(add, zero, across, kernel, i % w, w, h, i / w, kernel.len() as int, u);
}

/// A window of one tap looks at the pixel itself: what it sees of each pixel is that
/// pixel, weighed across and down.
pub proof fn law_one_tap_looks_at_the_pixel_itself<V, K, F: Fn(V, V, K) -> V>(
    add: F,
    zero: V,
    src: Seq<V>,
    w: int,
    h: int,
    kernel: Seq<K>,
    i: int,
)
    requires
        0 < w,
        0 < h,
        src.len() == w * h,
        kernel.len() == 1,
        0 <= i < src.len(),
    ensures
        blurred_down(add, zero, blurred_across(add, zero, src, w, kernel), w, h, kernel)[i]
            == value3(add, zero, value3(add, zero, src[i], kernel[0]), kernel[0]),
{
    lemma_row(i, w, h);
    lemma_place(i, w, h);
    let across = blurred_across(add, zero, src, w, kernel);
    assert(taps(add, zero, src, kernel, (i / w) * w, 1, w, i % w, 0) == zero);
    assert(taps(add, zero, across, kernel, i % w, w, h, i / w, 0) == zero);
    assert(nudged(i % w, 0, 0, w) == i % w);
    assert(nudged(i / w, 0, 0, h) == i / w);
    assert((i / w) * w + (i % w) * 1 == i);
    assert(across[i] == value3(add, zero, src[i], kernel[0]));
    assert(i % w + (i / w) * w == i);
}

// ---- Flatness -----------------------------------------------------------

/// The eight pixels around one.
#[derive(Clone, Copy, Debug)]
pub struct Around<C> {
    pub nw: C,
    pub n: C,
    pub ne: C,
    pub w: C,
    pub e: C,
    pub sw: C,
    pub s: C,
    pub se: C,
}

/// The pixel at `x` and `y`, or the nearest one of the image.
pub open spec fn nearest_pixel<C>(img: Raster<C>, x: int, y: int) -> C {
    img.pixel(clamped(x, img.width - 1), clamped(y, img.height - 1))
}

pub open spec fn around<C>(img: Raster<C>, x: int, y: int) -> Around<C> {
    Around {
        nw: nearest_pixel(img, x - 1, y - 1),
        n: nearest_pixel(img, x, y - 1),
        ne: nearest_pixel(img, x + 1, y - 1),
        w: nearest_pixel(img, x - 1, y),
        e: nearest_pixel(img, x + 1, y),
        sw: nearest_pixel(img, x - 1, y + 1),
        s: nearest_pixel(img, x, y + 1),
        se: nearest_pixel(img, x + 1, y + 1),
    }
}

/// How much each pixel should influence palette selection: what `weigh` makes of
/// the pixels around it. In an image too small to have a neighbourhood every
/// pixel weighs `full`.
pub fn flatness_weights<C: Copy, W: Copy, F: Fn(Around<C>) -> W>(
    weigh: &F,
    img: &Raster<C>,
    full: W,
) -> (out: Vec<W>)
    requires
        pure1(*weigh),
        img.wf(),
    ensures
        out@.len() == img.data@.len(),
        img.width < 3 || img.height < 3 ==> forall|i: int|
            0 <= i < out@.len() ==> #[trigger] out@[i] == full,
        img.width >= 3 && img.height >= 3 ==> forall|i: int|
            0 <= i < out@.len() ==> #[trigger] out@[i] == value1(
                *weigh,
                around(*img, i % (img.width as int), i / (img.width as int)),
            ),
{
    let n: usize = img.data.len();
    let small: bool = img.width < 3 || img.height < 3;
    let mut out: Vec<W> = Vec::new();
    let mut i: usize = 0;
    while i < n
        invariant
            pure1(*weigh),
            img.wf(),
            n == img.data@.len(),
            small == (img.width < 3 || img.height < 3),
            i <= n,
            out@.len() == i,
            small ==> forall|j: int| 0 <= j < i ==> #[trigger] out@[j] == full,
            !small ==> forall|j: int|
                0 <= j < i ==> #[trigger] out@[j] == value1(
                    *weigh,
                    around(*img, j % (img.width as int), j / (img.width as int)),
                ),
        decreases n - i,
    {
        if small {
            out.push(full);
        } else {
            proof {
                lemma_place(i as int, img.width as int, img.height as int);
            }
            let x: i64 = (i % img.width as usize) as i64;
            let y: i64 = (i / img.width as usize) as i64;
            let ring = Around {
                nw: img.get_clamped(x - 1, y - 1),
                n: img.get_clamped(x, y - 1),
                ne: img.get_clamped(x + 1, y - 1),
                w: img.get_clamped(x - 1, y),
                e: img.get_clamped(x + 1, y),
                sw: img.get_clamped(x - 1, y + 1),
                s: img.get_clamped(x, y + 1),
                se: img.get_clamped(x + 1, y + 1),
            };
            out.push(call1(weigh, ring));
        }
        i = i + 1;
    }
    out
}

// ---- What is looked at --------------------------------------------------

/// A place kept between 0 and `n - 1`.
pub open spec fn held(q: int, n: int) -> int {
    if q < 0 {
        0
    } else if q >= n {
        n - 1
    } else {
        q
    }
}

proof fn lemma_taps<V, K, F: Fn(V, V, K) -> V>(
    add: F,
    zero: V,
    src: Seq<V>,
    kernel: Seq<K>,
    from: int,
    step: int,
    n: int,
    x: int,
    k: int,
)
    requires
        0 <= k <= kernel.len(),
        n >= 1,
    ensures
        taps(add, zero, src, kernel, from, step, n, x, k) == Seq::new(
            k as nat,
            |j: int| (src[from + held(x + j - (kernel.len() - 1) / 2, n) * step], kernel[j]),
        ).fold_left(zero, |v: V, t: (V, K)| value3(add, v, t.0, t.1)),
    decreases k,
{
    if k > 0 {
        lemma_taps(add, zero, src, kernel, from, step, n, x, k - 1);
        let seen = |m: int|
            Seq::new(
                m as nat,
                |j: int| (src[from + held(x + j - (kernel.len() - 1) / 2, n) * step], kernel[j]),
            );
        assert(seen(k).drop_last() =~= seen(k - 1));
        assert(seen(k).last() == (
            src[from + held(x + (k - 1) - (kernel.len() - 1) / 2, n) * step],
            kernel[k - 1],
        ));
    }
}

/// Blurring looks at the places either side of a pixel, as far as the kernel reaches and
/// centred on it, along its row and then along its column; beyond the edge it sees the
/// edge.
pub proof fn law_blurring_is_centred<V, K, F: Fn(V, V, K) -> V>(
    add: F,
    zero: V,
    src: Seq<V>,
    w: int,
    h: int,
    kernel: Seq<K>,
    x: int,
    y: int,
)
    requires
        src.len() == w * h,
        0 <= x < w,
        0 <= y < h,
    ensures
        ({
            let r = (kernel.len() - 1) / 2;
            let row = Seq::new(
                kernel.len(),
                |j: int| (src[y * w + held(x + j - r, w)], kernel[j]),
            );
            let column = Seq::new(
                kernel.len(),
                |j: int| (src[held(y + j - r, h) * w + x], kernel[j]),
            );
            &&& blurred_across(add, zero, src, w, kernel)[y * w + x] == row.fold_left(
                zero,
                |v: V, t: (V, K)| value3(add, v, t.0, t.1),
            )
            &&& blurred_down(add, zero, src, w, h, kernel)[y * w + x] == column.fold_left(
                zero,
                |v: V, t: (V, K)| value3(add, v, t.0, t.1),
            )
        }),
{
    let i = y * w + x;
    let r = (kernel.len() - 1) / 2;
    vstd::arithmetic::div_mod::lemma_fundamental_div_mod_converse(i, w, y, x);
    assert(i < w * h && i >= 0) by (nonlinear_arith)
        requires
            i == y * w + x,
            0 <= x < w,
            0 <= y < h,
    ;
    lemma_taps(add, zero, src, kernel, y * w, 1, w, x, kernel.len() as int);
    lemma_taps(add, zero, src, kernel, x, w, h, y, kernel.len() as int);
    assert(Seq::new(
        kernel.len(),
        |j: int| (src[y * w + held(x + j - r, w) * 1], kernel[j]),
    ) =~= Seq::new(kernel.len(), |j: int| (src[y * w + held(x + j - r, w)], kernel[j])));
    assert(Seq::new(
        kernel.len(),
        |j: int| (src[x + held(y + j - r, h) * w], kernel[j]),
    ) =~= Seq::new(kernel.len(), |j: int| (src[held(y + j - r, h) * w + x], kernel[j])));
}

/// The window of a pixel is gone through row by row. The neighbour `dx` to the right and
/// `dy` down is added where it lies in the image, under its own cell of the window, and
/// nothing else is.
pub proof fn law_windows_are_gone_through_by_rows<A, F: Fn(A, usize, usize, usize) -> A>(
    add: F,
    zero: A,
    width: int,
    height: int,
    radius: u32,
    x: int,
    y: int,
    dx: int,
    dy: int,
)
    requires
        -radius <= dx <= radius,
        -radius <= dy <= radius,
    ensures
        window_sum(add, zero, width, height, radius, x, y, 0) == zero,
        ({
            let cell = (dy + radius) * (2 * radius + 1) + dx + radius;
            let before = window_sum(add, zero, width, height, radius, x, y, cell);
            let after = window_sum(add, zero, width, height, radius, x, y, cell + 1);
            if 0 <= x + dx < width && 0 <= y + dy < height {
                after == value4(
                    add,
                    before,
                    (y * width + x) as usize,
                    ((y + dy) * width + x + dx) as usize,
                    cell as usize,
                )
            } else {
                after == before
            }
        }),
{
    let side = 2 * radius + 1;
    let cell = (dy + radius) * side + dx + radius;
    assert(cell >= 0) by (nonlinear_arith)
        requires
            cell == (dy + radius) * side + dx + radius,
            dy + radius >= 0,
            dx + radius >= 0,
            side >= 0,
    ;
    vstd::arithmetic::div_mod::lemma_fundamental_div_mod_converse(
        cell,
        side,
        dy + radius,
        dx + radius,
    );
}

/// A smoothed pixel is made of its whole window and of itself.
pub proof fn law_smoothing_takes_the_whole_window<
    C,
    A,
    F: Fn(A, usize, usize, usize) -> A,
    G: Fn(A, C) -> C,
>(add: F, finish: G, zero: A, src: Raster<C>, radius: u32, x: int, y: int)
    requires
        src.wf(),
        0 <= x < src.width,
        0 <= y < src.height,
    ensures
        smoothed(add, finish, zero, src, radius, x, y) == value2(
            finish,
            window_sum(
                add,
                zero,
                src.width as int,
                src.height as int,
                radius,
                x,
                y,
                (2 * radius + 1) * (2 * radius + 1),
            ),
            src.data@[y * src.width + x],
        ),
{
}

/// The pixels around a pixel are those at the eight places next to it; beyond the edge they
/// are those of the edge.
pub proof fn law_neighbours_are_next_to_the_pixel<C>(img: Raster<C>, x: int, y: int)
    requires
        img.wf(),
        0 <= x < img.width,
        0 <= y < img.height,
    ensures
        ({
            let w = img.width as int;
            let left = held(x - 1, w);
            let right = held(x + 1, w);
            let up = held(y - 1, img.height as int);
            let down = held(y + 1, img.height as int);
            let a = around(img, x, y);
            &&& a.nw == img.data@[up * w + left]
            &&& a.n == img.data@[up * w + x]
            &&& a.ne == img.data@[up * w + right]
            &&& a.w == img.data@[y * w + left]
            &&& a.e == img.data@[y * w + right]
            &&& a.sw == img.data@[down * w + left]
            &&& a.s == img.data@[down * w + x]
            &&& a.se == img.data@[down * w + right]
        }),
{
}

} // verus!
