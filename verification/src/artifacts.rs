//! Wear and tear for test images: noise, and the ringing of a lossy codec.

use crate::pure::{call2, call4, pure2, pure4, value2, value4};
use crate::quantize::{rng_output, rng_seeded, rng_step, Rng};
use crate::raster::{lemma_cell, Raster};
use vstd::prelude::*;

verus! {

// ---- Noise --------------------------------------------------------------

/// The state of a generator after `n` steps.
pub open spec fn rng_after(state: u64, n: nat) -> u64
    decreases n,
{
    if n == 0 {
        state
    } else {
        rng_step(rng_after(state, (n - 1) as nat))
    }
}

/// Random number `n` of a generator, counted from 0.
pub open spec fn draw(seed: u64, n: nat) -> u64 {
    rng_output(rng_after(rng_seeded(seed), n + 1))
}

/// Shake every pixel with three random numbers of its own, one per channel, which
/// follow from `seed`.
pub fn add_noise<C: Copy, F: Fn(C, u64, u64, u64) -> C>(
    shake: &F,
    img: &Raster<C>,
    seed: u64,
) -> (out: Raster<C>)
    requires
        pure4(*shake),
    ensures
        out.width == img.width,
        out.height == img.height,
        out.data@.len() == img.data@.len(),
        forall|i: int|
            0 <= i < img.data@.len() ==> #[trigger] out.data@[i] == value4(
                *shake,
                img.data@[i],
                draw(seed, (3 * i) as nat),
                draw(seed, (3 * i + 1) as nat),
                draw(seed, (3 * i + 2) as nat),
            ),
{
    let mut rng = Rng::new(seed);
    let mut data: Vec<C> = Vec::new();
    let mut i: usize = 0;
    while i < img.data.len()
        invariant
            pure4(*shake),
            i <= img.data@.len(),
            rng.state() == rng_after(rng_seeded(seed), (3 * i) as nat),
            data@.len() == i,
            forall|j: int|
                0 <= j < i ==> #[trigger] data@[j] == value4(
                    *shake,
                    img.data@[j],
                    draw(seed, (3 * j) as nat),
                    draw(seed, (3 * j + 1) as nat),
                    draw(seed, (3 * j + 2) as nat),
                ),
        decreases img.data@.len() - i,
    {
        let ghost n = (3 * i) as nat;
        let a: u64 = rng.next_u64();
        assert(rng.state() == rng_after(rng_seeded(seed), n + 1));
        let b: u64 = rng.next_u64();
        assert(rng.state() == rng_after(rng_seeded(seed), n + 2));
        let c: u64 = rng.next_u64();
        assert(rng.state() == rng_after(rng_seeded(seed), n + 3));
        data.push(call4(shake, img.data[i], a, b, c));
        i = i + 1;
    }
    Raster { width: img.width, height: img.height, data }
}

// ---- Blocks -------------------------------------------------------------

/// What the first `k` cells of a block give, row by row; cells outside the image
/// give nothing.
pub open spec fn block_sum<C, A, F: Fn(A, C) -> A>(
    add: F,
    zero: A,
    img: Raster<C>,
    bx: int,
    by: int,
    k: int,
) -> A
    decreases k,
{
    if k <= 0 {
        zero
    } else {
        let acc = block_sum(add, zero, img, bx, by, k - 1);
        let x = bx * 8 + (k - 1) % 8;
        let y = by * 8 + (k - 1) / 8;
        if x < img.width && y < img.height {
            value2(add, acc, img.pixel(x, y))
        } else {
            acc
        }
    }
}

fn sum_block<C: Copy, A, F: Fn(A, C) -> A>(
    add: &F,
    zero: A,
    img: &Raster<C>,
    bx: u32,
    by: u32,
) -> (sum: A)
    requires
        pure2(*add),
        img.wf(),
    ensures
        sum == block_sum(*add, zero, *img, bx as int, by as int, 64),
{
    let ghost start = zero;
    let mut acc: A = zero;
    let mut k: u32 = 0;
    while k < 64
        invariant
            pure2(*add),
            img.wf(),
            k <= 64,
            acc == block_sum(*add, start, *img, bx as int, by as int, k as int),
        decreases 64 - k,
    {
        let x: u64 = bx as u64 * 8 + (k % 8) as u64;
        let y: u64 = by as u64 * 8 + (k / 8) as u64;
        if x < img.width as u64 && y < img.height as u64 {
            proof {
                lemma_cell(x as int, y as int, img.width as int, img.height as int);
            }
            acc = call2(add, acc, img.get(x as u32, y as u32));
        }
        k = k + 1;
    }
    acc
}

/// How many blocks cover `n` pixels.
pub open spec fn blocks_over(n: u32) -> int {
    (n + 7) / 8
}

/// Where the block of a pixel stands among all blocks.
proof fn lemma_block(x: int, y: int, w: u32, h: u32)
    requires
        0 <= x < w,
        0 <= y < h,
    ensures
        0 <= x / 8 < blocks_over(w),
        0 <= y / 8 < blocks_over(h),
        0 <= (y / 8) * blocks_over(w) + x / 8 < blocks_over(w) * blocks_over(h),
        ((y / 8) * blocks_over(w) + x / 8) % blocks_over(w) == x / 8,
        ((y / 8) * blocks_over(w) + x / 8) / blocks_over(w) == y / 8,
{
    let across = blocks_over(w);
    let bx = x / 8;
    let by = y / 8;
    lemma_cell(bx, by, across, blocks_over(h));
    assert((by * across + bx) % across == bx && (by * across + bx) / across == by)
        by (nonlinear_arith)
        requires
            0 <= bx < across,
            0 <= by,
    ;
}

/// Approximate the ringing of a lossy codec: `ring` distorts each pixel by what
/// `add` gathers from its block of 8 by 8.
pub fn add_block_artifacts<C: Copy, A: Copy, F: Fn(A, C) -> A, G: Fn(C, A) -> C>(
    add: &F,
    ring: &G,
    zero: A,
    img: &Raster<C>,
) -> (out: Raster<C>)
    requires
        pure2(*add),
        pure2(*ring),
        img.wf(),
    ensures
        out.width == img.width,
        out.height == img.height,
        out.wf(),
        forall|i: int|
            0 <= i < img.data@.len() ==> #[trigger] out.data@[i] == value2(
                *ring,
                img.data@[i],
                block_sum(
                    *add,
                    zero,
                    *img,
                    (i % (img.width as int)) / 8,
                    (i / (img.width as int)) / 8,
                    64,
                ),
            ),
{
    let across: u64 = (img.width as u64 + 7) / 8;
    let down: u64 = (img.height as u64 + 7) / 8;
    let mut sums: Vec<A> = Vec::new();
    let mut by: u64 = 0;
    while by < down
        invariant
            pure2(*add),
            img.wf(),
            across == blocks_over(img.width),
            down == blocks_over(img.height),
            by <= down,
            sums@.len() == by * across,
            forall|b: int|
                0 <= b < sums@.len() ==> #[trigger] sums@[b] == block_sum(
                    *add,
                    zero,
                    *img,
                    b % (across as int),
                    b / (across as int),
                    64,
                ),
        decreases down - by,
    {
        let mut bx: u64 = 0;
        while bx < across
            invariant
                pure2(*add),
                img.wf(),
                across == blocks_over(img.width),
                down == blocks_over(img.height),
                by < down,
                bx <= across,
                sums@.len() == by * across + bx,
                forall|b: int|
                    0 <= b < sums@.len() ==> #[trigger] sums@[b] == block_sum(
                        *add,
                        zero,
                        *img,
                        b % (across as int),
                        b / (across as int),
                        64,
                    ),
            decreases across - bx,
        {
            assert((by * across + bx) % (across as int) == bx && (by * across + bx) / (
            across as int) == by) by (nonlinear_arith)
                requires
                    0 <= bx < across,
                    0 <= by,
            ;
            sums.push(sum_block(add, zero, img, bx as u32, by as u32));
            bx = bx + 1;
        }
        assert((by + 1) * across == by * across + across) by (nonlinear_arith);
        by = by + 1;
    }
    let n: usize = img.data.len();
    let blocks: usize = sums.len();
    let mut data: Vec<C> = Vec::new();
    let mut i: usize = 0;
    while i < n
        invariant
            pure2(*ring),
            img.wf(),
            n == img.data@.len(),
            across == blocks_over(img.width),
            down == blocks_over(img.height),
            blocks == sums@.len(),
            blocks == down * across,
            forall|b: int|
                0 <= b < sums@.len() ==> #[trigger] sums@[b] == block_sum(
                    *add,
                    zero,
                    *img,
                    b % (across as int),
                    b / (across as int),
                    64,
                ),
            i <= n,
            data@.len() == i,
            forall|j: int|
                0 <= j < i ==> #[trigger] data@[j] == value2(
                    *ring,
                    img.data@[j],
                    block_sum(
                        *add,
                        zero,
                        *img,
                        (j % (img.width as int)) / 8,
                        (j / (img.width as int)) / 8,
                        64,
                    ),
                ),
        decreases n - i,
    {
        proof {
            lemma_row_and_column(i as int, img.width as int, img.height as int);
            lemma_block(
                i as int % (img.width as int),
                i as int / (img.width as int),
                img.width,
                img.height,
            );
            assert(down * across == across * down) by (nonlinear_arith);
        }
        let bx: u64 = (i as u64 % img.width as u64) / 8;
        let by: u64 = (i as u64 / img.width as u64) / 8;
        assert(0 <= by * across <= by * across + bx < blocks);
        let b: u64 = by * across + bx;
        data.push(call2(ring, img.data[i], sums[b as usize]));
        i = i + 1;
    }
    Raster { width: img.width, height: img.height, data }
}

proof fn lemma_row_and_column(i: int, w: int, h: int)
    requires
        0 <= i < w * h,
        w >= 0,
    ensures
        w > 0,
        0 <= i % w < w,
        0 <= i / w < h,
{
    assert(w > 0 && 0 <= i % w < w && 0 <= i / w < h) by (nonlinear_arith)
        requires
            0 <= i < w * h,
            w >= 0,
    ;
}

// ---- What is gathered ---------------------------------------------------

/// A block is gone through row by row: the pixel `dx` to the right of its corner and `dy`
/// below it is added where it lies in the image, and nothing else is.
pub proof fn law_blocks_gather_their_own_pixels<C, A, F: Fn(A, C) -> A>(
    add: F,
    zero: A,
    img: Raster<C>,
    bx: int,
    by: int,
    dx: int,
    dy: int,
)
    requires
        0 <= dx < 8,
        0 <= dy < 8,
    ensures
        block_sum(add, zero, img, bx, by, 0) == zero,
        ({
            let before = block_sum(add, zero, img, bx, by, 8 * dy + dx);
            let after = block_sum(add, zero, img, bx, by, 8 * dy + dx + 1);
            if 8 * bx + dx < img.width && 8 * by + dy < img.height {
                after == value2(
                    add,
                    before,
                    img.data@[(8 * by + dy) * img.width + (8 * bx + dx)],
                )
            } else {
                after == before
            }
        }),
{
    let k = 8 * dy + dx;
    assert(k % 8 == dx && k / 8 == dy);
}

/// The draws of a generator go on from one another: number `a + b` of one is number `b` of
/// one that made `a` steps more.
pub proof fn law_draws_go_on(state: u64, a: nat, b: nat)
    ensures
        rng_after(state, 0) == state,
        rng_after(state, 1) == rng_step(state),
        rng_after(state, a + b) == rng_after(rng_after(state, a), b),
    decreases b,
{
    reveal_with_fuel(rng_after, 2);
    if b > 0 {
        law_draws_go_on(state, a, (b - 1) as nat);
    }
}

/// The first draw of a seed is made one step after the state that the seed gives, and each
/// later one a step after the one before.
pub proof fn law_draws_follow_the_seed(seed: u64, n: nat)
    ensures
        draw(seed, 0) == rng_output(rng_step(rng_seeded(seed))),
        draw(seed, n + 1) == rng_output(rng_step(rng_after(rng_seeded(seed), n + 1))),
        draw(seed, n) == rng_output(rng_after(rng_seeded(seed), n + 1)),
{
    reveal_with_fuel(rng_after, 2);
}

} // verus!
