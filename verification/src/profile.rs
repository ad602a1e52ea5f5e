//! Cheap measurements that decide which settings are worth trying, and how many
//! points a result may cost.

use crate::cracks::one_if;
use crate::pure::{call1, call2, call3, pure1, pure2, pure3, value1, value2, value3};
use crate::raster::{lemma_cell, Raster};
use std::collections::HashSet;
use vstd::prelude::*;

verus! {

/// What was measured of an image.
#[derive(Clone, Copy, Debug)]
pub struct ImageProfile {
    pub width: u32,
    pub height: u32,
    /// Distinct colours at 5 bits per channel.
    pub unique_colors: usize,
    pub has_alpha: bool,
    /// Pixels that were looked at.
    pub sampled: usize,
    /// Of those, the pixels sitting on a strong gradient.
    pub edge: usize,
    /// Of the pixels on an edge, those that are genuine blends of their two
    /// neighbours. Hardly any means hard pixel edges -- pixel art, a screenshot,
    /// or an already-posterised image. Many means anti-aliased artwork, where
    /// sub-pixel reconstruction has real data to work with.
    pub blend: usize,
    /// Pixels whose 3x3 neighbourhood is perfectly uniform.
    pub flat: usize,
    pub photographic: bool,
    pub pixel_art: bool,
    pub bilevel: bool,
}

/// Pixels looked at, for the purpose of fractions: never none.
pub open spec fn sample_base(sampled: usize) -> int {
    if sampled == 0 {
        1
    } else {
        sampled as int
    }
}

/// Continuous-tone: a broad palette, and flat areas on less than a quarter of
/// the pixels. Colour count alone is a poor test -- a smooth two-hue gradient has
/// only a few hundred distinct colours, while a noisy flat-colour illustration
/// has many.
pub open spec fn looks_photographic(unique_colors: usize, flat: usize, sampled: usize) -> bool {
    unique_colors > 256 && 4 * flat < sample_base(sampled)
}

/// Hard edges, a small palette and large flat areas: less than 15% of the edge
/// pixels are blends, and more than 45% of all pixels are flat. A correctly
/// anti-aliased edge only ever has about one blended pixel for every two
/// saturated ones either side of it, so even clean artwork scores around 25-40%,
/// and hard pixel edges score essentially zero.
pub open spec fn looks_pixelated(
    unique_colors: usize,
    edge: usize,
    blend: usize,
    flat: usize,
    sampled: usize,
) -> bool {
    (edge == 0 || 20 * blend < 3 * edge) && unique_colors <= 256 && 20 * flat > 9 * sample_base(
        sampled,
    )
}

/// `p` is the profile of an image with these measurements. An empty image is none
/// of the three kinds.
pub open spec fn is_profile(
    p: ImageProfile,
    width: u32,
    height: u32,
    has_alpha: bool,
    unique_colors: usize,
    sampled: usize,
    edge: usize,
    blend: usize,
    flat: usize,
) -> bool {
    &&& p.width == width
    &&& p.height == height
    &&& p.has_alpha == has_alpha
    &&& if width > 0 && height > 0 {
        &&& p.unique_colors == unique_colors
        &&& p.sampled == sampled
        &&& p.edge == edge
        &&& p.blend == blend
        &&& p.flat == flat
        &&& p.photographic == looks_photographic(unique_colors, flat, sampled)
        &&& p.pixel_art == looks_pixelated(unique_colors, edge, blend, flat, sampled)
        &&& p.bilevel == (unique_colors <= 8)
    } else {
        &&& p.unique_colors == 0
        &&& p.sampled == 0
        &&& p.edge == 0
        &&& p.blend == 0
        &&& p.flat == 0
        &&& !p.photographic
        &&& !p.pixel_art
        &&& !p.bilevel
    }
}

/// Classify an image from what was measured of it.
pub fn classify(
    width: u32,
    height: u32,
    has_alpha: bool,
    unique_colors: usize,
    sampled: usize,
    edge: usize,
    blend: usize,
    flat: usize,
) -> (p: ImageProfile)
    ensures
        is_profile(p, width, height, has_alpha, unique_colors, sampled, edge, blend, flat),
{
    if width == 0 || height == 0 {
        return ImageProfile {
            width,
            height,
            unique_colors: 0,
            has_alpha,
            sampled: 0,
            edge: 0,
            blend: 0,
            flat: 0,
            photographic: false,
            pixel_art: false,
            bilevel: false,
        };
    }
    let base: u128 = if sampled == 0 {
        1
    } else {
        sampled as u128
    };
    ImageProfile {
        width,
        height,
        unique_colors,
        has_alpha,
        sampled,
        edge,
        blend,
        flat,
        photographic: unique_colors > 256 && 4 * (flat as u128) < base,
        pixel_art: (edge == 0 || 20 * (blend as u128) < 3 * (edge as u128)) && unique_colors <= 256
            && 20 * (flat as u128) > 9 * base,
        bilevel: unique_colors <= 8,
    }
}

/// No image counts as photographic and as pixel art at once.
pub proof fn law_photographs_are_not_pixel_art(
    unique_colors: usize,
    edge: usize,
    blend: usize,
    flat: usize,
    sampled: usize,
)
    ensures
        !(looks_photographic(unique_colors, flat, sampled) && looks_pixelated(
            unique_colors,
            edge,
            blend,
            flat,
            sampled,
        )),
{
}

/// How many different keys there are.
pub fn count_unique(keys: &Vec<u32>) -> (n: usize)
    ensures
        n == keys@.to_set().len(),
{
    broadcast use vstd::std_specs::hash::group_hash_axioms;

    let mut seen: HashSet<u32> = HashSet::new();
    let mut i: usize = 0;
    assert(keys@.take(0).to_set() =~= Set::<u32>::empty());
    while i < keys.len()
        invariant
            i <= keys@.len(),
            seen@ == keys@.take(i as int).to_set(),
        decreases keys@.len() - i,
    {
        broadcast use vstd::std_specs::hash::group_hash_axioms;

        let ghost before = seen@;
        seen.insert(keys[i]);
        proof {
            let less = keys@.take(i as int);
            let more = keys@.take(i + 1);
            assert(more =~= less.push(keys@[i as int]));
            assert forall|x: u32| more.to_set().contains(x) <==> less.to_set().insert(
                keys@[i as int],
            ).contains(x) by {
                if less.contains(x) {
                    let q = choose|q: int| 0 <= q < less.len() && less[q] == x;
                    assert(more[q] == x);
                }
                if more.contains(x) && x != keys@[i as int] {
                    let q = choose|q: int| 0 <= q < more.len() && more[q] == x;
                    assert(less[q] == x);
                }
                assert(more[i as int] == keys@[i as int]);
            }
            assert(more.to_set() =~= less.to_set().insert(keys@[i as int]));
        }
        i = i + 1;
    }
    assert(keys@.take(i as int) =~= keys@);
    seen.len()
}

// ---- Measuring ----------------------------------------------------------

/// What one pixel counts as.
#[derive(Clone, Copy, Debug, PartialEq, Eq, Structural)]
pub struct Look {
    pub edge: bool,
    pub blend: bool,
    pub flat: bool,
}

/// What the pixel at column `x` of row `y` counts as. The stronger one of the two
/// gradients through it decides: it is flat if the gradient is below `calm` and
/// all eight neighbours have its colour, and on an edge if the gradient is above
/// `steep`. On an edge it is a blend if it lies between the two colours that
/// flank it along the stronger gradient.
pub open spec fn look_at<
    C,
    FG: Fn(C, C) -> u32,
    FS: Fn(C, C) -> bool,
    FB: Fn(C, C, C) -> bool,
>(
    gradient: FG,
    same: FS,
    between: FB,
    calm: u32,
    steep: u32,
    img: Raster<C>,
    x: int,
    y: int,
) -> Look {
    let c = img.pixel(x, y);
    let l = img.pixel(x - 1, y);
    let r = img.pixel(x + 1, y);
    let u = img.pixel(x, y - 1);
    let d = img.pixel(x, y + 1);
    let gx = value2(gradient, l, r);
    let gy = value2(gradient, u, d);
    let strongest = if gx >= gy {
        gx
    } else {
        gy
    };
    let edge = strongest > steep;
    Look {
        edge,
        blend: edge && if gx >= gy {
            value3(between, l, c, r)
        } else {
            value3(between, u, c, d)
        },
        flat: strongest < calm && value2(same, c, l) && value2(same, c, r) && value2(same, c, u)
            && value2(same, c, d) && value2(same, c, img.pixel(x - 1, y - 1)) && value2(
            same,
            c,
            img.pixel(x + 1, y - 1),
        ) && value2(same, c, img.pixel(x - 1, y + 1)) && value2(
            same,
            c,
            img.pixel(x + 1, y + 1),
        ),
    }
}

/// How many of the pixels of row `y` from column 1 to before column `x` are on an
/// edge, are blends, and are flat.
pub open spec fn row_tally<
    C,
    FG: Fn(C, C) -> u32,
    FS: Fn(C, C) -> bool,
    FB: Fn(C, C, C) -> bool,
>(
    gradient: FG,
    same: FS,
    between: FB,
    calm: u32,
    steep: u32,
    img: Raster<C>,
    y: int,
    x: int,
) -> (int, int, int)
    decreases x,
{
    if x <= 1 {
        (0, 0, 0)
    } else {
        let rest = row_tally(gradient, same, between, calm, steep, img, y, x - 1);
        let look = look_at(gradient, same, between, calm, steep, img, x - 1, y);
        (
            rest.0 + one_if(look.edge),
            rest.1 + one_if(look.blend),
            rest.2 + one_if(look.flat),
        )
    }
}

/// How many pixels are looked at, and how many of them are on an edge, are blends
/// and are flat, in every `step`th row from `y` on. The outermost pixels are left
/// out: they have no whole neighbourhood.
pub open spec fn tally_from<
    C,
    FG: Fn(C, C) -> u32,
    FS: Fn(C, C) -> bool,
    FB: Fn(C, C, C) -> bool,
>(
    gradient: FG,
    same: FS,
    between: FB,
    calm: u32,
    steep: u32,
    img: Raster<C>,
    step: int,
    y: int,
) -> (int, int, int, int)
    decreases
        if y < img.height {
            img.height - y
        } else {
            0
        },
{
    if y >= img.height - 1 || step < 1 {
        (0, 0, 0, 0)
    } else {
        let row = row_tally(gradient, same, between, calm, steep, img, y, img.width - 1);
        let rest = tally_from(gradient, same, between, calm, steep, img, step, y + step);
        (
            rest.0 + inner_width(img.width as int),
            rest.1 + row.0,
            rest.2 + row.1,
            rest.3 + row.2,
        )
    }
}

/// The pixels of a row that have neighbours on both sides.
pub open spec fn inner_width(w: int) -> int {
    if w <= 2 {
        0
    } else {
        w - 2
    }
}

/// `n / parts`, but at least 1: large images are sampled rather than scanned.
pub open spec fn stride_of(n: int, parts: int) -> int {
    if n / parts < 1 {
        1
    } else {
        n / parts
    }
}

/// The keys of every `stride`th pixel.
pub open spec fn sampled_keys<C, FK: Fn(C) -> u32>(key: FK, data: Seq<C>, stride: int) -> Seq<u32> {
    Seq::new(
        ((data.len() + stride - 1) / stride) as nat,
        |k: int| value1(key, data[k * stride]),
    )
}

fn look<C: Copy, FG: Fn(C, C) -> u32, FS: Fn(C, C) -> bool, FB: Fn(C, C, C) -> bool>(
    gradient: &FG,
    same: &FS,
    between: &FB,
    calm: u32,
    steep: u32,
    img: &Raster<C>,
    x: u32,
    y: u32,
) -> (k: Look)
    requires
        pure2(*gradient),
        pure2(*same),
        pure3(*between),
        img.wf(),
        1 <= x < img.width - 1,
        1 <= y < img.height - 1,
    ensures
        k == look_at(*gradient, *same, *between, calm, steep, *img, x as int, y as int),
{
    proof {
        let w = img.width as int;
        let h = img.height as int;
        lemma_cell(x as int, y as int, w, h);
        lemma_cell(x - 1, y as int, w, h);
        lemma_cell(x + 1, y as int, w, h);
        lemma_cell(x as int, y - 1, w, h);
        lemma_cell(x as int, y + 1, w, h);
        lemma_cell(x - 1, y - 1, w, h);
        lemma_cell(x + 1, y - 1, w, h);
        lemma_cell(x - 1, y + 1, w, h);
        lemma_cell(x + 1, y + 1, w, h);
    }
    let c: C = img.get(x, y);
    let l: C = img.get(x - 1, y);
    let r: C = img.get(x + 1, y);
    let u: C = img.get(x, y - 1);
    let d: C = img.get(x, y + 1);
    let gx: u32 = call2(gradient, l, r);
    let gy: u32 = call2(gradient, u, d);
    let across: bool = gx >= gy;
    let strongest: u32 = if across {
        gx
    } else {
        gy
    };
    let edge: bool = strongest > steep;
    let blend: bool = edge && if across {
        call3(between, l, c, r)
    } else {
        call3(between, u, c, d)
    };
    let flat: bool = strongest < calm && call2(same, c, l) && call2(same, c, r) && call2(same, c, u)
        && call2(same, c, d) && call2(same, c, img.get(x - 1, y - 1)) && call2(
        same,
        c,
        img.get(x + 1, y - 1),
    ) && call2(same, c, img.get(x - 1, y + 1)) && call2(same, c, img.get(x + 1, y + 1));
    Look { edge, blend, flat }
}

/// The counts of one row, added to those before it.
fn tally_row<C: Copy, FG: Fn(C, C) -> u32, FS: Fn(C, C) -> bool, FB: Fn(C, C, C) -> bool>(
    gradient: &FG,
    same: &FS,
    between: &FB,
    calm: u32,
    steep: u32,
    img: &Raster<C>,
    y: u32,
) -> (n: (usize, usize, usize))
    requires
        pure2(*gradient),
        pure2(*same),
        pure3(*between),
        img.wf(),
        1 <= y < img.height - 1,
        img.width >= 2,
    ensures
        (n.0 as int, n.1 as int, n.2 as int) == row_tally(
            *gradient,
            *same,
            *between,
            calm,
            steep,
            *img,
            y as int,
            img.width - 1,
        ),
        n.0 <= img.width - 2,
        n.1 <= img.width - 2,
        n.2 <= img.width - 2,
{
    let mut edge: usize = 0;
    let mut blend: usize = 0;
    let mut flat: usize = 0;
    let mut x: u32 = 1;
    while x < img.width - 1
        invariant
            pure2(*gradient),
            pure2(*same),
            pure3(*between),
            img.wf(),
            1 <= y < img.height - 1,
            1 <= x <= img.width - 1,
            edge <= x - 1,
            blend <= x - 1,
            flat <= x - 1,
            (edge as int, blend as int, flat as int) == row_tally(
                *gradient,
                *same,
                *between,
                calm,
                steep,
                *img,
                y as int,
                x as int,
            ),
        decreases img.width - x,
    {
        let k: Look = look(gradient, same, between, calm, steep, img, x, y);
        if k.edge {
            edge = edge + 1;
        }
        if k.blend {
            blend = blend + 1;
        }
        if k.flat {
            flat = flat + 1;
        }
        x = x + 1;
    }
    (edge, blend, flat)
}

fn tally<C: Copy, FG: Fn(C, C) -> u32, FS: Fn(C, C) -> bool, FB: Fn(C, C, C) -> bool>(
    gradient: &FG,
    same: &FS,
    between: &FB,
    calm: u32,
    steep: u32,
    img: &Raster<C>,
) -> (n: (usize, usize, usize, usize))
    requires
        pure2(*gradient),
        pure2(*same),
        pure3(*between),
        img.wf(),
        img.width >= 1,
        img.height >= 1,
    ensures
        (n.0 as int, n.1 as int, n.2 as int, n.3 as int) == tally_from(
            *gradient,
            *same,
            *between,
            calm,
            steep,
            *img,
            stride_of(img.height as int, 400),
            1,
        ),
{
    let w: u32 = img.width;
    let h: u32 = img.height;
    let step: u64 = if h / 400 < 1 {
        1
    } else {
        (h / 400) as u64
    };
    let ghost whole = tally_from(*gradient, *same, *between, calm, steep, *img, step as int, 1);
    let mut sampled: usize = 0;
    let mut edge: usize = 0;
    let mut blend: usize = 0;
    let mut flat: usize = 0;
    let mut y: u64 = 1;
    assert(0 <= 1 * w);
    assert(img.data@.len() == img.data.len());
    while y < h as u64 - 1
        invariant
            pure2(*gradient),
            pure2(*same),
            pure3(*between),
            img.wf(),
            w == img.width,
            h == img.height,
            w >= 1,
            h >= 1,
            1 <= step <= 0xffff_ffff,
            1 <= y <= 0x1_ffff_ffff,
            img.data@.len() <= usize::MAX,
            0 <= sampled <= (y - 1) * w,
            edge <= sampled,
            blend <= sampled,
            flat <= sampled,
            ({
                let rest = tally_from(
                    *gradient,
                    *same,
                    *between,
                    calm,
                    steep,
                    *img,
                    step as int,
                    y as int,
                );
                whole == (sampled + rest.0, edge + rest.1, blend + rest.2, flat + rest.3)
            }),
        decreases
            if y < h {
                h - y
            } else {
                0
            },
    {
        let ghost y0 = y as int;
        assert((y0 - 1) * w + w == y0 * w) by (nonlinear_arith);
        assert(y0 * w <= w * h) by (nonlinear_arith)
            requires
                0 <= y0 <= h,
                0 <= w,
        ;
        if w > 2 {
            let (e, b, f) = tally_row(gradient, same, between, calm, steep, img, y as u32);
            sampled = sampled + (w - 2) as usize;
            edge = edge + e;
            blend = blend + b;
            flat = flat + f;
        } else {
            proof {
                reveal_with_fuel(row_tally, 2);
            }
        }
        y = y + step;
        assert(y0 * w <= (y - 1) * w) by (nonlinear_arith)
            requires
                y0 <= y - 1,
                0 <= w,
        ;
    }
    (sampled, edge, blend, flat)
}

/// Every `stride`th pixel's key.
fn gather_keys<C: Copy, FK: Fn(C) -> u32>(key: &FK, data: &Vec<C>, stride: usize) -> (keys: Vec<u32>)
    requires
        pure1(*key),
        stride >= 1,
    ensures
        keys@ == sampled_keys(*key, data@, stride as int),
{
    let mut keys: Vec<u32> = Vec::new();
    let n: usize = data.len();
    let mut i: usize = 0;
    let mut more: bool = n > 0;
    let ghost s = stride as int;
    assert(0 * s == 0);
    while more
        invariant
            pure1(*key),
            n == data@.len(),
            s == stride,
            s >= 1,
            more ==> i < n && i == keys@.len() * s,
            !more ==> keys@.len() * s >= n && (keys@.len() == 0 || (keys@.len() - 1) * s < n),
            forall|k: int| 0 <= k < keys@.len() ==> #[trigger] keys@[k] == value1(*key, data@[k * s]),
        decreases
            n - i,
            if more {
                1int
            } else {
                0int
            },
    {
        let ghost before = keys@.len() as int;
        keys.push(call1(key, data[i]));
        assert((before + 1) * s == before * s + s) by (nonlinear_arith);
        if stride < n - i {
            i = i + stride;
        } else {
            more = false;
        }
    }
    proof {
        let len = keys@.len() as int;
        assert(len == (n + s - 1) / s) by (nonlinear_arith)
            requires
                s >= 1,
                len * s >= n,
                len == 0 || (len - 1) * s < n,
                n >= 0,
                len >= 0,
        ;
        assert(keys@ =~= sampled_keys(*key, data@, s));
    }
    keys
}

/// Measure an image, cheaply, and classify it. `clear` tells whether a pixel is
/// not opaque, and `key` gives its colour at 5 bits per channel; `gradient` is
/// how much two pixels differ in brightness, ordered, with `calm` and `steep` in
/// the same order; `same` tells whether two pixels have one colour, and `between`
/// whether the second of three is a blend of the others.
pub fn profile<
    C: Copy,
    FA: Fn(C) -> bool,
    FK: Fn(C) -> u32,
    FG: Fn(C, C) -> u32,
    FS: Fn(C, C) -> bool,
    FB: Fn(C, C, C) -> bool,
>(
    clear: &FA,
    key: &FK,
    gradient: &FG,
    same: &FS,
    between: &FB,
    calm: u32,
    steep: u32,
    img: &Raster<C>,
) -> (p: ImageProfile)
    requires
        pure1(*clear),
        pure1(*key),
        pure2(*gradient),
        pure2(*same),
        pure3(*between),
        img.wf(),
    ensures
        ({
            let n = tally_from(
                *gradient,
                *same,
                *between,
                calm,
                steep,
                *img,
                stride_of(img.height as int, 400),
                1,
            );
            is_profile(
                p,
                img.width,
                img.height,
                exists|k: int| 0 <= k < img.data@.len() && value1(*clear, #[trigger] img.data@[k]),
                sampled_keys(
                    *key,
                    img.data@,
                    stride_of(img.data@.len() as int, 200_000),
                ).to_set().len() as usize,
                n.0 as usize,
                n.1 as usize,
                n.2 as usize,
                n.3 as usize,
            )
        }),
{
    let has_alpha: bool = img.has_alpha(clear);
    if img.width == 0 || img.height == 0 {
        return classify(img.width, img.height, has_alpha, 0, 0, 0, 0, 0);
    }
    let part: usize = img.data.len() / 200_000;
    let stride: usize = if part < 1 {
        1
    } else {
        part
    };
    let keys: Vec<u32> = gather_keys(key, &img.data, stride);
    let unique: usize = count_unique(&keys);
    let (sampled, edge, blend, flat) = tally(gradient, same, between, calm, steep, img);
    classify(img.width, img.height, has_alpha, unique, sampled, edge, blend, flat)
}

// ---- Point budget -------------------------------------------------------

/// `r` is the integer square root of `v`.
pub open spec fn is_isqrt(v: int, r: int) -> bool {
    0 <= r && r * r <= v && v < (r + 1) * (r + 1)
}

fn isqrt(v: u128) -> (r: u64)
    requires
        v < 0x1000_0000_0000_0000_0000,
    ensures
        is_isqrt(v as int, r as int),
{
    let mut lo: u64 = 0;
    let mut hi: u64 = 0x100_0000_0000;
    while hi - lo > 1
        invariant
            lo < hi <= 0x100_0000_0000,
            lo * lo <= v < hi * hi,
        decreases hi - lo,
    {
        let mid: u64 = lo + (hi - lo) / 2;
        assert(mid * mid <= 0x100_0000_0000 * 0x100_0000_0000) by (nonlinear_arith)
            requires
                0 <= mid <= 0x100_0000_0000,
        ;
        if (mid as u128) * (mid as u128) <= v {
            lo = mid;
        } else {
            hi = mid;
        }
    }
    assert(hi == lo + 1);
    lo
}

/// A generous but finite cap on control points for an image of this size:
/// 1000, plus 24 for every pixel of the side of a square with the image's area,
/// rounded down.
///
/// Some images -- anything noisy, and anything with a smooth gradient -- simply
/// cannot be matched by flat vector regions. Left alone, a search that ranks on
/// accuracy will happily spend a hundred thousand control points chasing
/// individual noise pixels. Beyond this budget a result has stopped being a
/// vectorisation, so it is ranked below every result that stayed within it. The
/// cap grows with the square root of the pixel count, because detail worth
/// tracing scales with the linear size of the image rather than its area.
pub fn derive_point_budget(width: u32, height: u32) -> (n: usize)
    ensures
        exists|r: int| #[trigger]
            is_isqrt(576 * (width * height), r) && n == (if r + 1000 <= usize::MAX {
                r + 1000
            } else {
                usize::MAX as int
            }),
{
    assert(0 <= width * height <= 0xffff_ffff * 0xffff_ffff) by (nonlinear_arith)
        requires
            0 <= width <= 0xffff_ffff,
            0 <= height <= 0xffff_ffff,
    ;
    let r: u64 = isqrt(576 * (width as u128 * height as u128));
    assert(r < 0x100_0000_0000) by (nonlinear_arith)
        requires
            r * r <= 576 * (width * height),
            width * height <= 0xffff_ffff * 0xffff_ffff,
    ;
    assert(is_isqrt(576 * (width * height), r as int));
    let total: u64 = r + 1000;
    if total <= usize::MAX as u64 {
        total as usize
    } else {
        usize::MAX
    }
}

/// A larger image never gets a smaller budget.
pub proof fn law_budget_grows_with_the_image(small: int, large: int, r: int, s: int)
    requires
        0 <= small <= large,
        is_isqrt(576 * small, r),
        is_isqrt(576 * large, s),
    ensures
        r <= s,
{
    if r > s {
        assert((s + 1) * (s + 1) <= r * r) by (nonlinear_arith)
            requires
                0 <= s,
                s + 1 <= r,
        ;
    }
}

// ---- What is measured ---------------------------------------------------

/// A picture is photographic exactly where it has more than 256 colours and less than a
/// quarter of the pixels looked at are flat, pixel art where it has no more colours than
/// that, more than 45% of the pixels are flat and less than 15% of the edge pixels blend,
/// and bilevel where it has at most eight colours.
pub proof fn law_kinds_follow_the_measurements(
    p: ImageProfile,
    width: u32,
    height: u32,
    has_alpha: bool,
    unique_colors: usize,
    sampled: usize,
    edge: usize,
    blend: usize,
    flat: usize,
)
    requires
        is_profile(p, width, height, has_alpha, unique_colors, sampled, edge, blend, flat),
        width > 0,
        height > 0,
        sampled > 0,
    ensures
        p.photographic <==> unique_colors >= 257 && flat + flat + flat + flat < sampled,
        p.pixel_art <==> unique_colors < 257 && 100 * flat > 45 * sampled && (edge == 0 || 100
            * blend < 15 * edge),
        p.bilevel <==> unique_colors < 9,
        p.photographic ==> !p.pixel_art && !p.bilevel,
        p.has_alpha == has_alpha,
        p.width == width && p.height == height && p.unique_colors == unique_colors,
        p.sampled == sampled && p.edge == edge && p.blend == blend && p.flat == flat,
{
}

/// A pixel is on an edge where one of the two gradients through it is steep, and flat where
/// both are calm and the eight pixels around it have its colour. On an edge it is a blend
/// where it lies between the two pixels along the stronger gradient.
pub proof fn law_looks_are_of_the_neighbours<
    C,
    FG: Fn(C, C) -> u32,
    FS: Fn(C, C) -> bool,
    FB: Fn(C, C, C) -> bool,
>(
    gradient: FG,
    same: FS,
    between: FB,
    calm: u32,
    steep: u32,
    img: Raster<C>,
    x: int,
    y: int,
)
    requires
        img.wf(),
        1 <= x < img.width - 1,
        1 <= y < img.height - 1,
    ensures
        ({
            let w = img.width as int;
            let at = |u: int, v: int| img.data@[v * w + u];
            let across = value2(gradient, at(x - 1, y), at(x + 1, y));
            let down = value2(gradient, at(x, y - 1), at(x, y + 1));
            let look = look_at(gradient, same, between, calm, steep, img, x, y);
            &&& look.edge <==> across > steep || down > steep
            &&& look.blend && across >= down ==> value3(
                between,
                at(x - 1, y),
                at(x, y),
                at(x + 1, y),
            )
            &&& look.blend && across < down ==> value3(
                between,
                at(x, y - 1),
                at(x, y),
                at(x, y + 1),
            )
            &&& look.blend ==> look.edge
            &&& look.edge && !look.blend && across >= down ==> !value3(
                between,
                at(x - 1, y),
                at(x, y),
                at(x + 1, y),
            )
            &&& look.edge && !look.blend && across < down ==> !value3(
                between,
                at(x, y - 1),
                at(x, y),
                at(x, y + 1),
            )
            &&& look.flat ==> across < calm && down < calm
            &&& look.flat ==> forall|dx: int, dy: int|
                -1 <= dx <= 1 && -1 <= dy <= 1 && (dx != 0 || dy != 0) ==> value2(
                    same,
                    at(x, y),
                    #[trigger] at(x + dx, y + dy),
                )
            &&& (across < calm && down < calm && forall|dx: int, dy: int|
                -1 <= dx <= 1 && -1 <= dy <= 1 && (dx != 0 || dy != 0) ==> value2(
                    same,
                    at(x, y),
                    #[trigger] at(x + dx, y + dy),
                )) ==> look.flat
        }),
{
    let w = img.width as int;
    let at = |u: int, v: int| img.data@[v * w + u];
    let c = at(x, y);
    let a1 = at(x + (-1), y + (-1));
    let a2 = at(x + 0, y + (-1));
    let a3 = at(x + 1, y + (-1));
    let a4 = at(x + (-1), y + 0);
    let a5 = at(x + 1, y + 0);
    let a6 = at(x + (-1), y + 1);
    let a7 = at(x + 0, y + 1);
    let a8 = at(x + 1, y + 1);
    assert(img.pixel(x, y) == c);
    assert(img.pixel(x - 1, y - 1) == a1);
    assert(img.pixel(x, y - 1) == a2);
    assert(img.pixel(x + 1, y - 1) == a3);
    assert(img.pixel(x - 1, y) == a4);
    assert(img.pixel(x + 1, y) == a5);
    assert(img.pixel(x - 1, y + 1) == a6);
    assert(img.pixel(x, y + 1) == a7);
    assert(img.pixel(x + 1, y + 1) == a8);
}

/// The inner columns of a row whose pixel satisfies a condition.
pub open spec fn columns_where(cond: spec_fn(int) -> bool, x: int) -> int {
    Seq::new(
        if x <= 1 {
            0
        } else {
            (x - 1) as nat
        },
        |k: int| k + 1,
    ).filter(cond).len() as int
}

proof fn lemma_columns(cond: spec_fn(int) -> bool, x: int)
    requires
        x >= 2,
    ensures
        columns_where(cond, x) == columns_where(cond, x - 1) + one_if(cond(x - 1)),
{
    reveal(Seq::filter);
    let all = Seq::new((x - 1) as nat, |k: int| k + 1);
    assert(all.drop_last() =~= Seq::new((x - 2) as nat, |k: int| k + 1));
    assert(all.last() == x - 1);
}

proof fn lemma_row<
    C,
    FG: Fn(C, C) -> u32,
    FS: Fn(C, C) -> bool,
    FB: Fn(C, C, C) -> bool,
>(
    gradient: FG,
    same: FS,
    between: FB,
    calm: u32,
    steep: u32,
    img: Raster<C>,
    y: int,
    x: int,
)
    ensures
        ({
            let look = |u: int| look_at(gradient, same, between, calm, steep, img, u, y);
            row_tally(gradient, same, between, calm, steep, img, y, x) == (
                columns_where(|u: int| look(u).edge, x),
                columns_where(|u: int| look(u).blend, x),
                columns_where(|u: int| look(u).flat, x),
            )
        }),
    decreases x,
{
    let look = |u: int| look_at(gradient, same, between, calm, steep, img, u, y);
    if x > 1 {
        lemma_row(gradient, same, between, calm, steep, img, y, x - 1);
        lemma_columns(|u: int| look(u).edge, x);
        lemma_columns(|u: int| look(u).blend, x);
        lemma_columns(|u: int| look(u).flat, x);
    } else {
        reveal(Seq::filter);
    }
}

/// Each row that is looked at adds the pixels between its first and its last, and of those
/// as many edges, blends and flat pixels as there are. The next row is `step` further down,
/// and the outermost rows are left out.
pub proof fn law_rows_add_up<
    C,
    FG: Fn(C, C) -> u32,
    FS: Fn(C, C) -> bool,
    FB: Fn(C, C, C) -> bool,
>(
    gradient: FG,
    same: FS,
    between: FB,
    calm: u32,
    steep: u32,
    img: Raster<C>,
    step: int,
    y: int,
)
    requires
        step >= 1,
        img.width >= 2,
    ensures
        y >= img.height - 1 ==> tally_from(gradient, same, between, calm, steep, img, step, y) == (
            0int,
            0int,
            0int,
            0int,
        ),
        y < img.height - 1 ==> ({
            let look = |u: int| look_at(gradient, same, between, calm, steep, img, u, y);
            let all = tally_from(gradient, same, between, calm, steep, img, step, y);
            let rest = tally_from(gradient, same, between, calm, steep, img, step, y + step);
            let n = img.width - 1;
            &&& all.0 == rest.0 + img.width - 2
            &&& all.1 == rest.1 + columns_where(|u: int| look(u).edge, n)
            &&& all.2 == rest.2 + columns_where(|u: int| look(u).blend, n)
            &&& all.3 == rest.3 + columns_where(|u: int| look(u).flat, n)
        }),
{
    lemma_row(gradient, same, between, calm, steep, img, y, img.width - 1);
}

/// Colours are counted on every `stride`th pixel from the first on, as far as there are
/// pixels, and a picture of fewer than twice as many pixels as are wanted is looked at
/// whole.
pub proof fn law_colors_are_counted_on_every_stride<C, FK: Fn(C) -> u32>(
    key: FK,
    data: Seq<C>,
    stride: int,
    k: int,
    n: int,
    parts: int,
)
    requires
        stride >= 1,
        0 <= k,
        parts >= 1,
        0 <= n,
    ensures
        k * stride < data.len() ==> k < sampled_keys(key, data, stride).len() && sampled_keys(
            key,
            data,
            stride,
        )[k] == value1(key, data[k * stride]),
        k * stride >= data.len() ==> k >= sampled_keys(key, data, stride).len(),
        n < 2 * parts ==> stride_of(n, parts) == 1,
        n >= 2 * parts ==> stride_of(n, parts) * parts <= n < (stride_of(n, parts) + 1) * parts,
{
    let m = (data.len() + stride - 1) / stride;
    vstd::arithmetic::div_mod::lemma_fundamental_div_mod(data.len() + stride - 1, stride);
    vstd::arithmetic::div_mod::lemma_mod_bound(data.len() + stride - 1, stride);
    let r = (data.len() + stride - 1) % stride;
    assert(stride * m + r == data.len() + stride - 1);
    if k * stride < data.len() {
        assert(k < m) by (nonlinear_arith)
            requires
                k * stride < data.len(),
                stride * m + r == data.len() + stride - 1,
                0 <= r < stride,
                stride >= 1,
        ;
    } else {
        assert(k >= m) by (nonlinear_arith)
            requires
                k * stride >= data.len(),
                stride * m + r == data.len() + stride - 1,
                0 <= r < stride,
                stride >= 1,
        ;
    }
    vstd::arithmetic::div_mod::lemma_fundamental_div_mod(n, parts);
    vstd::arithmetic::div_mod::lemma_mod_bound(n, parts);
    let d = n / parts;
    if n < 2 * parts {
        assert(d < 2) by (nonlinear_arith)
            requires
                n < 2 * parts,
                n == parts * d + n % parts,
                n % parts >= 0,
                parts >= 1,
        ;
    } else {
        assert(d >= 1) by (nonlinear_arith)
            requires
                n >= 2 * parts,
                n == parts * d + n % parts,
                n % parts < parts,
                parts >= 1,
        ;
        assert(d * parts <= n < (d + 1) * parts) by (nonlinear_arith)
            requires
                n == parts * d + n % parts,
                0 <= n % parts < parts,
        ;
    }
}

} // verus!
