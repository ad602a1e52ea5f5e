//! Two-tone images: where dark ends and light begins, and what colours the two
//! sides have.

use crate::cluster::{below, is_best_split, level_sum, otsu_split};
use crate::color::Rgba8;
use crate::pure::{call1, call2, pure1, pure2, pure4, value1, value2};
use crate::quantize::{binary_entries, painted_entry, PaletteEntry};
use vstd::prelude::*;

verus! {

// ---- The threshold ------------------------------------------------------

/// How many of the first `k` pixels fall into each of the 256 bins. `bin` gives
/// the bin of a pixel, or none where it does not count.
pub open spec fn histogram_of<C, B: Fn(C) -> Option<u8>>(bin: B, data: Seq<C>, k: int) -> Seq<u64>
    decreases k,
{
    if k <= 0 {
        Seq::new(256, |b: int| 0)
    } else {
        let before = histogram_of(bin, data, k - 1);
        match value1(bin, data[k - 1]) {
            Some(b) => before.update(b as int, (before[b as int] + 1) as u64),
            None => before,
        }
    }
}

proof fn lemma_one_more(hist: Seq<u64>, b: int, t: int)
    requires
        0 <= b < hist.len(),
        t < hist.len(),
        hist[b] < u64::MAX,
    ensures
        ({
            let more = hist.update(b, (hist[b] + 1) as u64);
            &&& below(more, t) == below(hist, t) + (if b <= t {
                1nat
            } else {
                0
            })
            &&& level_sum(more, t) == level_sum(hist, t) + (if b <= t {
                b
            } else {
                0
            })
        }),
    decreases t + 1,
{
    if t >= 0 {
        lemma_one_more(hist, b, t - 1);
        if t == b {
            assert(t * (hist[b] + 1) == t * hist[b] + t) by (nonlinear_arith);
        }
        assert(t * hist[t] >= 0) by (nonlinear_arith)
            requires
                t >= 0,
                hist[t] >= 0,
        ;
    }
}

proof fn lemma_bin_is_below(hist: Seq<u64>, b: int, t: int)
    requires
        0 <= b <= t < hist.len(),
    ensures
        hist[b] <= below(hist, t),
    decreases t,
{
    if b < t {
        lemma_bin_is_below(hist, b, t - 1);
    }
}

proof fn lemma_empty(t: int)
    requires
        t < 256,
    ensures
        below(Seq::new(256, |b: int| 0u64), t) == 0,
        level_sum(Seq::new(256, |b: int| 0u64), t) == 0,
    decreases t + 1,
{
    if t >= 0 {
        lemma_empty(t - 1);
    }
}

fn histogram<C: Copy, B: Fn(C) -> Option<u8>>(bin: &B, data: &Vec<C>) -> (hist: Vec<u64>)
    requires
        pure1(*bin),
        data@.len() <= 0xff_ffff_ffff_ffff,
    ensures
        hist@ == histogram_of(*bin, data@, data@.len() as int),
        hist@.len() == 256,
        below(hist@, 255) <= data@.len(),
        level_sum(hist@, 255) <= 255 * data@.len(),
{
    let mut hist: Vec<u64> = Vec::new();
    while hist.len() < 256
        invariant
            hist@.len() <= 256,
            forall|b: int| 0 <= b < hist@.len() ==> #[trigger] hist@[b] == 0,
        decreases 256 - hist@.len(),
    {
        hist.push(0);
    }
    assert(hist@ =~= Seq::new(256, |b: int| 0u64));
    proof {
        lemma_empty(255);
    }
    let mut i: usize = 0;
    while i < data.len()
        invariant
            pure1(*bin),
            data@.len() <= 0xff_ffff_ffff_ffff,
            i <= data@.len(),
            hist@.len() == 256,
            hist@ == histogram_of(*bin, data@, i as int),
            below(hist@, 255) <= i,
            level_sum(hist@, 255) <= 255 * i,
        decreases data@.len() - i,
    {
        match call1(bin, data[i]) {
            Some(b) => {
                let k: usize = b as usize;
                proof {
                    lemma_bin_is_below(hist@, b as int, 255);
                    lemma_one_more(hist@, b as int, 255);
                }
                let n: u64 = hist[k];
                hist.set(k, n + 1);
            },
            None => {},
        }
        i = i + 1;
    }
    hist
}

/// Otsu's method on the luminance histogram: the bin after which light begins, or
/// `None` where no pixel counts. `bin` is the luminance of a pixel, none where it
/// is transparent: a transparent border must not drag the split. `variance`
/// measures how well a split separates the two sides.
pub fn otsu_threshold<C: Copy, B: Fn(C) -> Option<u8>, F: Fn(u64, u64, u64, u64) -> u64>(
    bin: &B,
    variance: &F,
    data: &Vec<C>,
) -> (r: Option<usize>)
    requires
        pure1(*bin),
        pure4(*variance),
        data@.len() <= 0xff_ffff_ffff_ffff,
    ensures
        ({
            let hist = histogram_of(*bin, data@, data@.len() as int);
            &&& r is None <==> below(hist, 255) == 0
            &&& r matches Some(t) ==> t < 256 && is_best_split(hist, *variance, 256, t as int)
        }),
{
    let hist: Vec<u64> = histogram(bin, data);
    otsu_split(&hist, variance)
}

// ---- The tones ----------------------------------------------------------

/// The pixels among the first `k` that count and are on the given side, summed up.
pub open spec fn side_sum<C, V, A, K: Fn(C) -> bool, L: Fn(V, C) -> bool, F: Fn(A, C) -> A>(
    clear: K,
    light: L,
    level: V,
    plus: F,
    zero: A,
    data: Seq<C>,
    side: bool,
    k: int,
) -> A
    decreases k,
{
    if k <= 0 {
        zero
    } else {
        let before = side_sum(clear, light, level, plus, zero, data, side, k - 1);
        let c = data[k - 1];
        if !value1(clear, c) && value2(light, level, c) == side {
            value2(plus, before, c)
        } else {
            before
        }
    }
}

/// The entries of a two-tone palette. Each side has the mean colour of its
/// pixels, rather than pure black and white, so that a sepia scan stays sepia.
/// `light` tells whether a pixel is lighter than `level`; `plus` adds an opaque pixel to the sum of its side, and `finish` makes a
/// colour of a sum, for the dark or for the light side.
pub fn two_tones<
    C: Copy,
    V: Copy,
    A: Copy,
    T: Copy,
    K: Fn(C) -> bool,
    L: Fn(V, C) -> bool,
    F: Fn(A, C) -> A,
    M: Fn(A, bool) -> (Rgba8, T),
>(
    clear: &K,
    light: &L,
    level: V,
    plus: &F,
    finish: &M,
    zero: A,
    data: &Vec<C>,
    invert: bool,
) -> (entries: Vec<PaletteEntry<T>>)
    requires
        pure1(*clear),
        pure2(*light),
        pure2(*plus),
        pure2(*finish),
    ensures
        ({
            let n = data@.len() as int;
            let dark = value2(
                *finish,
                side_sum(*clear, *light, level, *plus, zero, data@, false, n),
                false,
            );
            let bright = value2(
                *finish,
                side_sum(*clear, *light, level, *plus, zero, data@, true, n),
                true,
            );
            entries@ == if invert {
                seq![painted_entry(bright.0, bright.1), painted_entry(dark.0, dark.1)]
            } else {
                seq![painted_entry(dark.0, dark.1), painted_entry(bright.0, bright.1)]
            }
        }),
{
    let mut dark: A = zero;
    let mut bright: A = zero;
    let mut i: usize = 0;
    while i < data.len()
        invariant
            pure1(*clear),
            pure2(*light),
            pure2(*plus),
            i <= data@.len(),
            dark == side_sum(*clear, *light, level, *plus, zero, data@, false, i as int),
            bright == side_sum(*clear, *light, level, *plus, zero, data@, true, i as int),
        decreases data@.len() - i,
    {
        let c: C = data[i];
        if !call1(clear, c) {
            if call2(light, level, c) {
                bright = call2(plus, bright, c);
            } else {
                dark = call2(plus, dark, c);
            }
        }
        i = i + 1;
    }
    let dark_entry: (Rgba8, T) = call2(finish, dark, false);
    let light_entry: (Rgba8, T) = call2(finish, bright, true);
    binary_entries(dark_entry, light_entry, invert)
}

} // verus!
