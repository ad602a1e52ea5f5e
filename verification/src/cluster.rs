//! Grouping pixels: histograms, k-means rounds and median cut.
//!
//! Colours themselves are the caller's: points are named by index, and what has
//! to be compared comes in as integers that order like it.

use crate::order::{is_stable_order, stable_order, Rank};
use crate::pure::{
    call1, call2, call3, call4, pure1, pure2, pure3, pure4, value1, value2, value3, value4,
};
use vstd::prelude::*;

verus! {

// ---- Otsu's method ------------------------------------------------------

/// Pixels in bins `0..=t`.
pub open spec fn below(hist: Seq<u64>, t: int) -> nat
    decreases t + 1,
{
    if t < 0 {
        0
    } else {
        below(hist, t - 1) + hist[t] as nat
    }
}

/// Sum of the levels of the pixels in bins `0..=t`.
pub open spec fn level_sum(hist: Seq<u64>, t: int) -> nat
    decreases t + 1,
{
    if t < 0 {
        0
    } else {
        level_sum(hist, t - 1) + (t * hist[t]) as nat
    }
}

/// Whether a split after bin `t` has pixels on both sides.
pub open spec fn splits_at(hist: Seq<u64>, t: int) -> bool {
    0 < below(hist, t) < below(hist, hist.len() - 1)
}

/// How well a split after bin `t` separates the two sides, by `variance` of the
/// pixel counts and level sums on the dark and the light side.
pub open spec fn separation<F: Fn(u64, u64, u64, u64) -> u64>(
    hist: Seq<u64>,
    variance: F,
    t: int,
) -> u64 {
    let last = hist.len() - 1;
    value4(
        variance,
        below(hist, t) as u64,
        (below(hist, last) - below(hist, t)) as u64,
        level_sum(hist, t) as u64,
        (level_sum(hist, last) - level_sum(hist, t)) as u64,
    )
}

/// Whether `t` is the first of the best splits among bins `0..n`, or 128 where
/// none has pixels on both sides.
pub open spec fn is_best_split<F: Fn(u64, u64, u64, u64) -> u64>(
    hist: Seq<u64>,
    variance: F,
    n: int,
    t: int,
) -> bool {
    if exists|k: int| 0 <= k < n && #[trigger] splits_at(hist, k) {
        &&& 0 <= t < n
        &&& splits_at(hist, t)
        &&& forall|k: int|
            0 <= k < n && #[trigger] splits_at(hist, k) ==> {
                &&& separation(hist, variance, k) <= separation(hist, variance, t)
                &&& k < t ==> separation(hist, variance, k) < separation(hist, variance, t)
            }
    } else {
        t == 128
    }
}

proof fn lemma_below_grows(hist: Seq<u64>, s: int, t: int)
    requires
        -1 <= s <= t < hist.len(),
    ensures
        below(hist, s) <= below(hist, t),
        level_sum(hist, s) <= level_sum(hist, t),
    decreases t - s,
{
    if s < t {
        lemma_below_grows(hist, s, t - 1);
        assert(t * hist[t] >= 0) by (nonlinear_arith)
            requires
                t >= 0,
                hist[t] >= 0,
        ;
    }
}

/// Otsu's method on a luminance histogram of 256 bins: the bin after which to
/// split, or `None` where the histogram is empty.
pub fn otsu_split<F: Fn(u64, u64, u64, u64) -> u64>(hist: &Vec<u64>, variance: &F) -> (r: Option<
    usize,
>)
    requires
        hist@.len() == 256,
        below(hist@, 255) <= u64::MAX,
        level_sum(hist@, 255) <= u64::MAX,
        pure4(*variance),
    ensures
        r is None <==> below(hist@, 255) == 0,
        r matches Some(t) ==> is_best_split(hist@, *variance, 256, t as int) && t < 256,
{
    let ghost h = hist@;
    let mut total: u64 = 0;
    let mut sum_all: u64 = 0;
    let mut i: usize = 0;
    while i < 256
        invariant
            i <= 256,
            h == hist@,
            h.len() == 256,
            below(h, 255) <= u64::MAX,
            level_sum(h, 255) <= u64::MAX,
            total == below(h, i - 1),
            sum_all == level_sum(h, i - 1),
        decreases 256 - i,
    {
        proof {
            lemma_below_grows(h, i as int, 255);
            assert(i * h[i as int] >= 0) by (nonlinear_arith)
                requires
                    i >= 0,
                    h[i as int] >= 0,
            ;
        }
        total = total + hist[i];
        sum_all = sum_all + i as u64 * hist[i];
        i = i + 1;
    }
    if total == 0 {
        return None;
    }
    let mut w_b: u64 = 0;
    let mut sum_b: u64 = 0;
    let mut best: Option<u64> = None;
    let mut best_t: usize = 128;
    let mut t: usize = 0;
    while t < 256
        invariant
            t <= 256,
            h == hist@,
            h.len() == 256,
            pure4(*variance),
            total == below(h, 255),
            sum_all == level_sum(h, 255),
            w_b == below(h, t - 1),
            sum_b == level_sum(h, t - 1),
            is_best_split(h, *variance, t as int, best_t as int),
            best_t < 256,
            best is Some <==> exists|k: int| 0 <= k < t && #[trigger] splits_at(h, k),
            best matches Some(b) ==> b == separation(h, *variance, best_t as int),
        decreases 256 - t,
    {
        proof {
            lemma_below_grows(h, t as int, 255);
            assert(t * h[t as int] >= 0) by (nonlinear_arith)
                requires
                    t >= 0,
                    h[t as int] >= 0,
            ;
        }
        let ghost before = best_t as int;
        let ghost had = best;
        w_b = w_b + hist[t];
        sum_b = sum_b + t as u64 * hist[t];
        let w_f: u64 = total - w_b;
        if w_b > 0 && w_f > 0 {
            let v: u64 = call4(variance, w_b, w_f, sum_b, sum_all - sum_b);
            assert(splits_at(h, t as int));
            assert(v == separation(h, *variance, t as int));
            let ahead: bool = match best {
                None => true,
                Some(b) => v > b,
            };
            if ahead {
                best = Some(v);
                best_t = t;
            }
        }
        t = t + 1;
        proof {
            let last = t - 1;
            assert forall|k: int| 0 <= k < t && #[trigger] splits_at(h, k) implies k < last
                || k == last by {}
            if splits_at(h, last) {
                assert(best is Some);
            } else {
                assert(best == had);
                assert(best is Some ==> exists|k: int| 0 <= k < t && #[trigger] splits_at(h, k));
            }
            if best is Some {
                assert forall|k: int| 0 <= k < t && #[trigger] splits_at(h, k) implies {
                    &&& separation(h, *variance, k) <= separation(h, *variance, best_t as int)
                    &&& k < best_t ==> separation(h, *variance, k) < separation(
                        h,
                        *variance,
                        best_t as int,
                    )
                } by {
                    if k < last {
                        assert(had is Some);
                    }
                }
                assert(splits_at(h, best_t as int));
            }
        }
    }
    Some(best_t)
}

// ---- Sums per group -----------------------------------------------------

/// The accumulation of those of the first `n` points that belong to group `g`,
/// in order.
pub open spec fn member_sum<X, A, F: Fn(A, X) -> A>(
    pts: Seq<X>,
    groups: Seq<u32>,
    g: int,
    zero: A,
    plus: F,
    n: int,
) -> A
    decreases n,
{
    if n <= 0 {
        zero
    } else if groups[n - 1] == g {
        value2(plus, member_sum(pts, groups, g, zero, plus, n - 1), pts[n - 1])
    } else {
        member_sum(pts, groups, g, zero, plus, n - 1)
    }
}

/// Accumulate the points of every group.
pub fn group_sums<X: Copy, A: Copy, F: Fn(A, X) -> A>(
    pts: &Vec<X>,
    groups: &Vec<u32>,
    count: usize,
    zero: A,
    plus: &F,
) -> (sums: Vec<A>)
    requires
        pts@.len() == groups@.len(),
        forall|i: int| 0 <= i < groups@.len() ==> #[trigger] groups@[i] < count,
        pure2(*plus),
    ensures
        sums@.len() == count,
        forall|g: int|
            0 <= g < count ==> #[trigger] sums@[g] == member_sum(
                pts@,
                groups@,
                g,
                zero,
                *plus,
                groups@.len() as int,
            ),
{
    let mut sums: Vec<A> = Vec::new();
    while sums.len() < count
        invariant
            sums@.len() <= count,
            forall|g: int| 0 <= g < sums@.len() ==> #[trigger] sums@[g] == zero,
        decreases count - sums@.len(),
    {
        sums.push(zero);
    }
    let mut i: usize = 0;
    while i < groups.len()
        invariant
            i <= groups@.len(),
            pts@.len() == groups@.len(),
            sums@.len() == count,
            forall|k: int| 0 <= k < groups@.len() ==> #[trigger] groups@[k] < count,
            pure2(*plus),
            forall|g: int|
                0 <= g < count ==> #[trigger] sums@[g] == member_sum(
                    pts@,
                    groups@,
                    g,
                    zero,
                    *plus,
                    i as int,
                ),
        decreases groups@.len() - i,
    {
        let g: usize = groups[i] as usize;
        let next: A = call2(plus, sums[g], pts[i]);
        sums.set(g, next);
        i = i + 1;
    }
    sums
}

// ---- k-means ------------------------------------------------------------

/// Whether `j` is the first of the centres nearest to point `i`.
pub open spec fn is_nearest_centre<X, L, D: Fn(X, L) -> u32>(
    centres: Seq<L>,
    dist: D,
    i: X,
    j: int,
) -> bool {
    &&& 0 <= j < centres.len()
    &&& forall|k: int|
        0 <= k < centres.len() ==> value2(dist, i, centres[j]) <= value2(
            dist,
            i,
            #[trigger] centres[k],
        )
    &&& forall|k: int|
        0 <= k < j ==> value2(dist, i, centres[j]) < value2(dist, i, #[trigger] centres[k])
}

fn nearest_centre<X: Copy, L: Copy, D: Fn(X, L) -> u32>(
    centres: &Vec<L>,
    dist: &D,
    i: X,
) -> (j: usize)
    requires
        centres@.len() > 0,
        pure2(*dist),
    ensures
        is_nearest_centre(centres@, *dist, i, j as int),
{
    let mut best: usize = 0;
    let mut best_d: u32 = call2(dist, i, centres[0]);
    let mut k: usize = 1;
    while k < centres.len()
        invariant
            1 <= k <= centres@.len(),
            best < k,
            pure2(*dist),
            best_d == value2(*dist, i, centres@[best as int]),
            forall|m: int|
                0 <= m < k ==> value2(*dist, i, centres@[best as int]) <= value2(
                    *dist,
                    i,
                    #[trigger] centres@[m],
                ),
            forall|m: int|
                0 <= m < best ==> value2(*dist, i, centres@[best as int]) < value2(
                    *dist,
                    i,
                    #[trigger] centres@[m],
                ),
        decreases centres@.len() - k,
    {
        let d: u32 = call2(dist, i, centres[k]);
        if d < best_d {
            best_d = d;
            best = k;
        }
        k = k + 1;
    }
    best
}

/// Whether every point belongs to its nearest centre.
pub open spec fn is_assignment<X, L, D: Fn(X, L) -> u32>(
    pts: Seq<X>,
    groups: Seq<u32>,
    centres: Seq<L>,
    dist: D,
) -> bool {
    forall|i: int|
        0 <= i < groups.len() ==> is_nearest_centre(
            centres,
            dist,
            pts[i],
            (#[trigger] groups[i]) as int,
        )
}

/// The centre of group `g` after its members are known: `finish` turns their
/// sum into a centre, or `None` where they weigh nothing and the centre stays.
pub open spec fn moved_centre<X, L, A, F: Fn(A, X) -> A, M: Fn(A) -> Option<L>>(
    pts: Seq<X>,
    groups: Seq<u32>,
    centres: Seq<L>,
    g: int,
    zero: A,
    plus: F,
    finish: M,
) -> L {
    match value1(
        finish,
        member_sum(pts, groups, g, zero, plus, groups.len() as int),
    ) {
        Some(c) => c,
        None => centres[g],
    }
}

/// One round of k-means: every point joins its nearest centre, and every centre
/// moves to its members.
pub open spec fn is_round<
    X,
    L,
    A,
    D: Fn(X, L) -> u32,
    F: Fn(A, X) -> A,
    M: Fn(A) -> Option<L>,
>(
    pts: Seq<X>,
    groups: Seq<u32>,
    before: Seq<L>,
    after: Seq<L>,
    dist: D,
    zero: A,
    plus: F,
    finish: M,
) -> bool {
    &&& is_assignment(pts, groups, before, dist)
    &&& after.len() == before.len()
    &&& forall|g: int|
        0 <= g < after.len() ==> #[trigger] after[g] == moved_centre(
            pts,
            groups,
            before,
            g,
            zero,
            plus,
            finish,
        )
}

/// The states of a run of k-means: the groups that each round found, and the
/// centres before the first round and after each.
pub ghost struct Rounds<L> {
    pub groups: Seq<Seq<u32>>,
    pub centres: Seq<Seq<L>>,
}

/// Whether `run` is a run of at most `limit` rounds on the points from the given
/// centres: it goes on until a round moves no point, or the limit is reached.
/// Before the first round every point counts as in group 0.
pub open spec fn is_run<
    X,
    L,
    A,
    D: Fn(X, L) -> u32,
    F: Fn(A, X) -> A,
    M: Fn(A) -> Option<L>,
>(
    run: Rounds<L>,
    pts: Seq<X>,
    start: Seq<L>,
    limit: int,
    dist: D,
    zero: A,
    plus: F,
    finish: M,
) -> bool {
    let rounds = run.groups.len();
    &&& run.centres.len() == rounds + 1
    &&& run.centres[0] == start
    &&& rounds <= limit
    &&& forall|r: int|
        0 <= r < rounds ==> {
            &&& (#[trigger] run.groups[r]).len() == pts.len()
            &&& is_round(
                pts,
                run.groups[r],
                run.centres[r],
                run.centres[r + 1],
                dist,
                zero,
                plus,
                finish,
            )
        }
    &&& forall|r: int| 0 <= r < rounds - 1 ==> !unmoved(run, #[trigger] run.groups[r], r)
    &&& rounds == limit || (rounds > 0 && unmoved(run, run.groups[rounds - 1], rounds - 1))
}

/// Whether round `r`, which found `groups`, moved no point.
pub open spec fn unmoved<L>(run: Rounds<L>, groups: Seq<u32>, r: int) -> bool {
    if r == 0 {
        forall|i: int| 0 <= i < groups.len() ==> #[trigger] groups[i] == 0
    } else {
        groups == run.groups[r - 1]
    }
}

/// Run k-means on the points from the given centres.
pub fn kmeans<
    X: Copy,
    L: Copy,
    A: Copy,
    D: Fn(X, L) -> u32,
    F: Fn(A, X) -> A,
    M: Fn(A) -> Option<L>,
>(
    pts: &Vec<X>,
    start: Vec<L>,
    iterations: usize,
    dist: &D,
    zero: A,
    plus: &F,
    finish: &M,
) -> (centres: Vec<L>)
    requires
        0 < start@.len() <= u32::MAX,
        pure2(*dist),
        pure2(*plus),
        pure1(*finish),
    ensures
        centres@.len() == start@.len(),
        exists|run: Rounds<L>| #[trigger]
            is_run(
                run,
                pts@,
                start@,
                iterations as int,
                *dist,
                zero,
                *plus,
                *finish,
            ) && run.centres.last() == centres@,
{
    let n: usize = pts.len();
    let k: usize = start.len();
    let ghost first = start@;
    let mut centres: Vec<L> = start;
    let mut groups: Vec<u32> = Vec::new();
    while groups.len() < n
        invariant
            groups@.len() <= n,
            forall|i: int| 0 <= i < groups@.len() ==> #[trigger] groups@[i] == 0,
        decreases n - groups@.len(),
    {
        groups.push(0);
    }
    let ghost mut run: Rounds<L> = Rounds { groups: seq![], centres: seq![first] };
    let mut done: bool = false;
    let mut round: usize = 0;
    while round < iterations && !done
        invariant
            round <= iterations,
            n == pts@.len(),
            0 < k <= u32::MAX,
            centres@.len() == k,
            first.len() == k,
            groups@.len() == n,
            pure2(*dist),
            pure2(*plus),
            pure1(*finish),
            run.groups.len() == round,
            run.centres.len() == round + 1,
            run.centres[0] == first,
            run.centres[round as int] == centres@,
            round == 0 ==> forall|i: int| 0 <= i < n ==> #[trigger] groups@[i] == 0,
            round > 0 ==> groups@ == run.groups[round - 1],
            forall|r: int|
                0 <= r < round ==> {
                    &&& (#[trigger] run.groups[r]).len() == n
                    &&& is_round(
                        pts@,
                        run.groups[r],
                        run.centres[r],
                        run.centres[r + 1],
                        *dist,
                        zero,
                        *plus,
                        *finish,
                    )
                },
            forall|r: int| 0 <= r < round - 1 ==> !unmoved(run, #[trigger] run.groups[r], r),
            done ==> round > 0 && unmoved(run, run.groups[round - 1], round - 1),
            !done && round > 0 ==> !unmoved(run, run.groups[round - 1], round - 1),
        decreases iterations - round, if done { 0int } else { 1int },
    {
        let ghost before = groups@;
        let mut changed: bool = false;
        let mut i: usize = 0;
        while i < n
            invariant
                i <= n,
                n == pts@.len(),
                0 < k <= u32::MAX,
                centres@.len() == k,
                groups@.len() == n,
                before.len() == n,
                pure2(*dist),
                forall|m: int|
                    0 <= m < i ==> is_nearest_centre(
                        centres@,
                        *dist,
                        pts@[m],
                        (#[trigger] groups@[m]) as int,
                    ),
                forall|m: int| i <= m < n ==> #[trigger] groups@[m] == before[m],
                !changed ==> groups@ == before,
                changed ==> exists|m: int| 0 <= m < i && groups@[m] != before[m],
            decreases n - i,
        {
            let best: usize = nearest_centre(&centres, dist, pts[i]);
            if groups[i] != best as u32 {
                groups.set(i, best as u32);
                changed = true;
                assert(groups@[i as int] != before[i as int]);
            }
            i = i + 1;
        }
        assert forall|m: int| 0 <= m < groups@.len() implies #[trigger] groups@[m] < k by {
            assert(is_nearest_centre(centres@, *dist, pts@[m], groups@[m] as int));
        }
        let ghost old_centres = centres@;
        let sums: Vec<A> = group_sums(pts, &groups, k, zero, plus);
        let mut g: usize = 0;
        while g < k
            invariant
                g <= k,
                k == old_centres.len(),
                centres@.len() == k,
                sums@.len() == k,
                pure1(*finish),
                forall|m: int|
                    0 <= m < k ==> #[trigger] sums@[m] == member_sum(
                        pts@,
                        groups@,
                        m,
                        zero,
                        *plus,
                        groups@.len() as int,
                    ),
                forall|m: int|
                    0 <= m < g ==> #[trigger] centres@[m] == moved_centre(
                        pts@,
                        groups@,
                        old_centres,
                        m,
                        zero,
                        *plus,
                        *finish,
                    ),
                forall|m: int| g <= m < k ==> #[trigger] centres@[m] == old_centres[m],
            decreases k - g,
        {
            let moved: Option<L> = call1(finish, sums[g]);
            if let Some(c) = moved {
                centres.set(g, c);
            }
            g = g + 1;
        }
        let ghost old_run = run;
        proof {
            run = Rounds {
                groups: old_run.groups.push(groups@),
                centres: old_run.centres.push(centres@),
            };
            assert(is_round(pts@, groups@, old_centres, centres@, *dist, zero, *plus, *finish));
            assert forall|r: int| 0 <= r < round + 1 implies {
                &&& (#[trigger] run.groups[r]).len() == n
                &&& is_round(
                    pts@,
                    run.groups[r],
                    run.centres[r],
                    run.centres[r + 1],
                    *dist,
                    zero,
                    *plus,
                    *finish,
                )
            } by {
                if r < round {
                    assert(run.groups[r] == old_run.groups[r]);
                    assert(run.centres[r] == old_run.centres[r]);
                    assert(run.centres[r + 1] == old_run.centres[r + 1]);
                }
            }
            assert forall|r: int| 0 <= r < round implies !unmoved(
                run,
                #[trigger] run.groups[r],
                r,
            ) by {
                assert(run.groups[r] == old_run.groups[r]);
                if r > 0 {
                    assert(run.groups[r - 1] == old_run.groups[r - 1]);
                }
                assert(!unmoved(old_run, old_run.groups[r], r));
            }
            assert(run.groups[round as int] == groups@);
            if changed {
                let m = choose|m: int| 0 <= m < n && groups@[m] != before[m];
                assert(groups@[m] != before[m]);
                if round == 0 {
                    assert(before[m] == 0);
                }
            } else {
                assert(groups@ == before);
            }
            assert(unmoved(run, groups@, round as int) <==> !changed);
        }
        done = !changed;
        round = round + 1;
    }
    proof {
        assert(is_run(
            run,
            pts@,
            first,
            iterations as int,
            *dist,
            zero,
            *plus,
            *finish,
        ));
    }
    centres
}

// ---- Median cut ---------------------------------------------------------

/// A point's coordinates as integers that order like them.
#[derive(Clone, Copy, Debug, PartialEq, Eq, Structural)]
pub struct AxisKeys {
    pub l: i64,
    pub a: i64,
    pub b: i64,
}

pub open spec fn on_axis(k: AxisKeys, axis: int) -> i64 {
    if axis == 0 {
        k.l
    } else if axis == 1 {
        k.a
    } else {
        k.b
    }
}

impl AxisKeys {
    fn on(&self, axis: usize) -> (v: i64)
        ensures
            v == on_axis(*self, axis as int),
    {
        if axis == 0 {
            self.l
        } else if axis == 1 {
            self.a
        } else {
            self.b
        }
    }
}

/// The first of the members lowest on an axis.
pub open spec fn lowest(keys: Seq<AxisKeys>, members: Seq<usize>, axis: int) -> usize
    decreases members.len(),
{
    if members.len() <= 1 {
        members[0]
    } else {
        let m = lowest(keys, members.drop_last(), axis);
        if on_axis(keys[members.last() as int], axis) < on_axis(keys[m as int], axis) {
            members.last()
        } else {
            m
        }
    }
}

/// The first of the members highest on an axis.
pub open spec fn highest(keys: Seq<AxisKeys>, members: Seq<usize>, axis: int) -> usize
    decreases members.len(),
{
    if members.len() <= 1 {
        members[0]
    } else {
        let m = highest(keys, members.drop_last(), axis);
        if on_axis(keys[members.last() as int], axis) > on_axis(keys[m as int], axis) {
            members.last()
        } else {
            m
        }
    }
}

/// How far the members reach along an axis, by `gap` of the axis and the two
/// outermost members.
pub open spec fn extent<G: Fn(usize, AxisKeys, AxisKeys) -> u32>(
    keys: Seq<AxisKeys>,
    gap: G,
    members: Seq<usize>,
    axis: int,
) -> u32 {
    value3(
        gap,
        axis as usize,
        keys[lowest(keys, members, axis) as int],
        keys[highest(keys, members, axis) as int],
    )
}

/// The axis along which the members reach furthest, and how far; of equal axes
/// the first, and the first of all where they do not reach at all.
pub open spec fn spread<G: Fn(usize, AxisKeys, AxisKeys) -> u32>(
    keys: Seq<AxisKeys>,
    gap: G,
    members: Seq<usize>,
) -> (int, u32) {
    let e0 = extent(keys, gap, members, 0);
    let e1 = extent(keys, gap, members, 1);
    let e2 = extent(keys, gap, members, 2);
    let first = (0int, e0);
    let second = if e1 > first.1 {
        (1int, e1)
    } else {
        first
    };
    if e2 > second.1 {
        (2int, e2)
    } else {
        second
    }
}

/// Of the first `n` boxes with at least two members, the first that spreads
/// furthest, and how far; `None` where none spreads.
pub open spec fn widest_box<G: Fn(usize, AxisKeys, AxisKeys) -> u32>(
    keys: Seq<AxisKeys>,
    gap: G,
    boxes: Seq<Vec<usize>>,
    n: int,
) -> Option<(int, u32)>
    decreases n,
{
    if n <= 0 {
        None
    } else {
        let before = widest_box(keys, gap, boxes, n - 1);
        let s = spread(keys, gap, boxes[n - 1]@).1;
        let best = match before {
            Some(b) => b.1,
            None => 0,
        };
        if boxes[n - 1]@.len() >= 2 && s > best {
            Some((n - 1, s))
        } else {
            before
        }
    }
}

pub open spec fn axis_ranks(keys: Seq<AxisKeys>, members: Seq<usize>, axis: int) -> Seq<Rank> {
    Seq::new(
        members.len(),
        |i: int|
            Rank {
                first: on_axis(keys[members[i] as int], axis),
                second: 0,
                third: 0,
                fourth: 0,
            },
    )
}

/// Whether `sorted` is `members` in stable ascending order along an axis.
pub open spec fn sorted_along(
    keys: Seq<AxisKeys>,
    members: Seq<usize>,
    axis: int,
    sorted: Seq<usize>,
) -> bool {
    exists|order: Seq<usize>|
        {
            &&& #[trigger] is_stable_order(axis_ranks(keys, members, axis), order)
            &&& sorted.len() == members.len()
            &&& forall|i: int|
                0 <= i < members.len() ==> #[trigger] sorted[i] == members[order[i] as int]
        }
}

/// One cut: box `i` leaves (the last box takes its place), and its lower and
/// upper halves along its widest axis are appended.
pub open spec fn is_cut<G: Fn(usize, AxisKeys, AxisKeys) -> u32>(
    keys: Seq<AxisKeys>,
    gap: G,
    before: Seq<Vec<usize>>,
    after: Seq<Vec<usize>>,
    i: int,
) -> bool {
    let n = before.len();
    &&& 0 <= i < n
    &&& after.len() == n + 1
    &&& forall|k: int|
        0 <= k < n - 1 ==> #[trigger] after[k] == if k == i {
            before[n - 1]
        } else {
            before[k]
        }
    &&& exists|sorted: Seq<usize>|
        {
            &&& #[trigger] sorted_along(
                keys,
                before[i]@,
                spread(keys, gap, before[i]@).0,
                sorted,
            )
            &&& after[n - 1]@ == sorted.take(sorted.len() as int / 2)
            &&& after[n as int]@ == sorted.skip(sorted.len() as int / 2)
        }
}

/// Whether the cutting ends: there are `k` boxes, or no box with two members
/// spreads at least `floor`.
pub open spec fn cutting_ends<G: Fn(usize, AxisKeys, AxisKeys) -> u32>(
    keys: Seq<AxisKeys>,
    gap: G,
    boxes: Seq<Vec<usize>>,
    k: int,
    floor: u32,
) -> bool {
    boxes.len() >= k || match widest_box(keys, gap, boxes, boxes.len() as int) {
        None => true,
        Some(w) => w.1 < floor,
    }
}

/// Whether `states` are the boxes before the first cut and after each: every cut
/// is of the widest box, and the last state is the first at which the cutting
/// ends.
pub open spec fn is_cutting<G: Fn(usize, AxisKeys, AxisKeys) -> u32>(
    keys: Seq<AxisKeys>,
    gap: G,
    states: Seq<Seq<Vec<usize>>>,
    k: int,
    floor: u32,
) -> bool {
    &&& states.len() > 0
    &&& states[0].len() == 1
    &&& states[0][0]@ == Seq::new(keys.len(), |i: int| i as usize)
    &&& cuts_follow(keys, gap, states, k, floor)
    &&& cutting_ends(keys, gap, states.last(), k, floor)
}

/// Whether each state but the last is followed by a cut of its widest box.
pub open spec fn cuts_follow<G: Fn(usize, AxisKeys, AxisKeys) -> u32>(
    keys: Seq<AxisKeys>,
    gap: G,
    states: Seq<Seq<Vec<usize>>>,
    k: int,
    floor: u32,
) -> bool {
    forall|s: int|
        0 <= s < states.len() - 1 ==> {
            &&& !cutting_ends(keys, gap, #[trigger] states[s], k, floor)
            &&& is_cut(
                keys,
                gap,
                states[s],
                states[s + 1],
                widest_box(keys, gap, states[s], states[s].len() as int)->Some_0.0,
            )
        }
}

proof fn lemma_one_more_cut<G: Fn(usize, AxisKeys, AxisKeys) -> u32>(
    keys: Seq<AxisKeys>,
    gap: G,
    states: Seq<Seq<Vec<usize>>>,
    next: Seq<Vec<usize>>,
    k: int,
    floor: u32,
)
    requires
        states.len() > 0,
        cuts_follow(keys, gap, states, k, floor),
        !cutting_ends(keys, gap, states.last(), k, floor),
        is_cut(
            keys,
            gap,
            states.last(),
            next,
            widest_box(keys, gap, states.last(), states.last().len() as int)->Some_0.0,
        ),
    ensures
        cuts_follow(keys, gap, states.push(next), k, floor),
{
    let more = states.push(next);
    assert forall|s: int| 0 <= s < more.len() - 1 implies {
        &&& !cutting_ends(keys, gap, #[trigger] more[s], k, floor)
        &&& is_cut(
            keys,
            gap,
            more[s],
            more[s + 1],
            widest_box(keys, gap, more[s], more[s].len() as int)->Some_0.0,
        )
    } by {
        assert(more[s] == states[s]);
        if s < states.len() - 1 {
            assert(more[s + 1] == states[s + 1]);
        }
    }
}

/// Whether the boxes share out the points `0..n`: each point is in a box, no box
/// is empty, and together they have `n` members.
pub open spec fn is_partition(boxes: Seq<Vec<usize>>, n: int) -> bool {
    &&& members_in(boxes) == n
    &&& forall|b: int| 0 <= b < boxes.len() ==> (#[trigger] boxes[b])@.len() > 0
    &&& forall|b: int, i: int|
        #![trigger boxes[b]@[i]]
        0 <= b < boxes.len() && 0 <= i < boxes[b]@.len() ==> boxes[b]@[i] < n
    &&& forall|x: usize| x < n ==> #[trigger] boxed(boxes, x)
}

pub open spec fn boxed(boxes: Seq<Vec<usize>>, x: usize) -> bool {
    exists|b: int| 0 <= b < boxes.len() && (#[trigger] boxes[b])@.contains(x)
}

pub open spec fn members_in(boxes: Seq<Vec<usize>>) -> int
    decreases boxes.len(),
{
    if boxes.len() == 0 {
        0
    } else {
        members_in(boxes.drop_last()) + boxes.last()@.len()
    }
}

proof fn lemma_members_update(boxes: Seq<Vec<usize>>, i: int, v: Vec<usize>)
    requires
        0 <= i < boxes.len(),
    ensures
        members_in(boxes.update(i, v)) == members_in(boxes) - boxes[i]@.len() + v@.len(),
    decreases boxes.len(),
{
    let next = boxes.update(i, v);
    if i == boxes.len() - 1 {
        assert(next.drop_last() =~= boxes.drop_last());
    } else {
        assert(next.drop_last() =~= boxes.drop_last().update(i, v));
        lemma_members_update(boxes.drop_last(), i, v);
    }
}

fn outermost(keys: &Vec<AxisKeys>, members: &Vec<usize>, axis: usize) -> (r: (usize, usize))
    requires
        members@.len() > 0,
        forall|i: int| 0 <= i < members@.len() ==> #[trigger] members@[i] < keys@.len(),
    ensures
        r.0 == lowest(keys@, members@, axis as int),
        r.1 == highest(keys@, members@, axis as int),
        r.0 < keys@.len(),
        r.1 < keys@.len(),
{
    let mut lo: usize = members[0];
    let mut hi: usize = members[0];
    let mut i: usize = 1;
    while i < members.len()
        invariant
            1 <= i <= members@.len(),
            forall|k: int| 0 <= k < members@.len() ==> #[trigger] members@[k] < keys@.len(),
            lo < keys@.len(),
            hi < keys@.len(),
            lo == lowest(keys@, members@.take(i as int), axis as int),
            hi == highest(keys@, members@.take(i as int), axis as int),
        decreases members@.len() - i,
    {
        let m: usize = members[i];
        let v: i64 = keys[m].on(axis);
        proof {
            let next = members@.take(i + 1);
            assert(next.drop_last() =~= members@.take(i as int));
            assert(next.last() == m);
        }
        if v < keys[lo].on(axis) {
            lo = m;
        }
        if v > keys[hi].on(axis) {
            hi = m;
        }
        i = i + 1;
    }
    assert(members@.take(i as int) =~= members@);
    (lo, hi)
}

fn measure<G: Fn(usize, AxisKeys, AxisKeys) -> u32>(
    keys: &Vec<AxisKeys>,
    gap: &G,
    members: &Vec<usize>,
) -> (r: (usize, u32))
    requires
        members@.len() > 0,
        forall|i: int| 0 <= i < members@.len() ==> #[trigger] members@[i] < keys@.len(),
        pure3(*gap),
    ensures
        (r.0 as int, r.1) == spread(keys@, *gap, members@),
{
    let (lo0, hi0) = outermost(keys, members, 0);
    let e0: u32 = call3(gap, 0usize, keys[lo0], keys[hi0]);
    let (lo1, hi1) = outermost(keys, members, 1);
    let e1: u32 = call3(gap, 1usize, keys[lo1], keys[hi1]);
    let (lo2, hi2) = outermost(keys, members, 2);
    let e2: u32 = call3(gap, 2usize, keys[lo2], keys[hi2]);
    let mut axis: usize = 0;
    let mut best: u32 = e0;
    if e1 > best {
        axis = 1;
        best = e1;
    }
    if e2 > best {
        axis = 2;
        best = e2;
    }
    (axis, best)
}

fn sort_along(keys: &Vec<AxisKeys>, members: &Vec<usize>, axis: usize) -> (sorted: Vec<usize>)
    requires
        forall|i: int| 0 <= i < members@.len() ==> #[trigger] members@[i] < keys@.len(),
    ensures
        sorted_along(keys@, members@, axis as int, sorted@),
        sorted@.len() == members@.len(),
        forall|i: int| 0 <= i < sorted@.len() ==> #[trigger] sorted@[i] < keys@.len(),
        forall|x: usize| members@.contains(x) ==> #[trigger] sorted@.contains(x),
{
    let mut ranks: Vec<Rank> = Vec::new();
    let mut i: usize = 0;
    while i < members.len()
        invariant
            i <= members@.len(),
            forall|k: int| 0 <= k < members@.len() ==> #[trigger] members@[k] < keys@.len(),
            ranks@.len() == i,
            forall|k: int|
                0 <= k < i ==> #[trigger] ranks@[k] == axis_ranks(keys@, members@, axis as int)[k],
        decreases members@.len() - i,
    {
        ranks.push(Rank { first: keys[members[i]].on(axis), second: 0, third: 0, fourth: 0 });
        i = i + 1;
    }
    assert(ranks@ =~= axis_ranks(keys@, members@, axis as int));
    let order: Vec<usize> = stable_order(&ranks);
    let mut sorted: Vec<usize> = Vec::new();
    let mut j: usize = 0;
    while j < order.len()
        invariant
            j <= order@.len(),
            order@.len() == members@.len(),
            forall|k: int| 0 <= k < order@.len() ==> #[trigger] order@[k] < members@.len(),
            forall|k: int| 0 <= k < members@.len() ==> #[trigger] members@[k] < keys@.len(),
            sorted@.len() == j,
            forall|k: int| 0 <= k < j ==> #[trigger] sorted@[k] == members@[order@[k] as int],
        decreases order@.len() - j,
    {
        sorted.push(members[order[j]]);
        j = j + 1;
    }
    proof {
        assert(is_stable_order(axis_ranks(keys@, members@, axis as int), order@));
        assert forall|x: usize| members@.contains(x) implies #[trigger] sorted@.contains(x) by {
            let p = choose|p: int| 0 <= p < members@.len() && members@[p] == x;
            assert(order@.contains(p as usize));
            let q = choose|q: int| 0 <= q < order@.len() && order@[q] == p as usize;
            assert(sorted@[q] == x);
        }
        assert forall|i: int| 0 <= i < sorted@.len() implies #[trigger] sorted@[i]
            < keys@.len() by {
            assert(sorted@[i] == members@[order@[i] as int]);
        }
    }
    sorted
}

/// Find the box to cut next.
fn find_widest<G: Fn(usize, AxisKeys, AxisKeys) -> u32>(
    keys: &Vec<AxisKeys>,
    gap: &G,
    boxes: &Vec<Vec<usize>>,
) -> (r: Option<(usize, u32)>)
    requires
        is_partition(boxes@, keys@.len() as int),
        pure3(*gap),
    ensures
        match (r, widest_box(keys@, *gap, boxes@, boxes@.len() as int)) {
            (Some(a), Some(b)) => a.0 as int == b.0 && a.1 == b.1,
            (None, None) => true,
            _ => false,
        },
        r matches Some(a) ==> a.0 < boxes@.len() && boxes@[a.0 as int]@.len() >= 2,
{
    let mut r: Option<(usize, u32)> = None;
    let mut i: usize = 0;
    while i < boxes.len()
        invariant
            i <= boxes@.len(),
            is_partition(boxes@, keys@.len() as int),
            pure3(*gap),
            match (r, widest_box(keys@, *gap, boxes@, i as int)) {
                (Some(a), Some(b)) => a.0 as int == b.0 && a.1 == b.1,
                (None, None) => true,
                _ => false,
            },
            r matches Some(a) ==> a.0 < i && boxes@[a.0 as int]@.len() >= 2,
        decreases boxes@.len() - i,
    {
        let members: &Vec<usize> = &boxes[i];
        if members.len() >= 2 {
            assert forall|k: int| 0 <= k < members@.len() implies #[trigger] members@[k]
                < keys@.len() by {
                assert(boxes@[i as int]@[k] < keys@.len());
            }
            let (_axis, s) = measure(keys, gap, members);
            let best: u32 = match r {
                Some(a) => a.1,
                None => 0,
            };
            if s > best {
                r = Some((i, s));
            }
        }
        i = i + 1;
    }
    r
}

proof fn lemma_cut_keeps_partition(
    before: Seq<Vec<usize>>,
    after: Seq<Vec<usize>>,
    i: int,
    sorted: Seq<usize>,
    n: int,
)
    requires
        is_partition(before, n),
        0 <= i < before.len(),
        before[i]@.len() >= 2,
        sorted.len() == before[i]@.len(),
        forall|k: int| 0 <= k < sorted.len() ==> #[trigger] sorted[k] < n,
        forall|x: usize| before[i]@.contains(x) ==> #[trigger] sorted.contains(x),
        after.len() == before.len() + 1,
        forall|k: int|
            0 <= k < before.len() - 1 ==> #[trigger] after[k] == if k == i {
                before[before.len() - 1]
            } else {
                before[k]
            },
        after[before.len() - 1]@ == sorted.take(sorted.len() as int / 2),
        after[before.len() as int]@ == sorted.skip(sorted.len() as int / 2),
    ensures
        is_partition(after, n),
{
    let last = before.len() - 1;
    let half = sorted.len() as int / 2;
    let left = after[last];
    let right = after[last + 1];
    assert(left@.len() + right@.len() == sorted.len());
    // Members are neither lost nor made.
    let shifted = before.update(i, before[last]);
    lemma_members_update(before, i, before[last]);
    assert(after.drop_last().drop_last() =~= shifted.drop_last());
    assert(shifted.last() == before[last]);
    assert(members_in(after) == members_in(after.drop_last()) + right@.len());
    assert(after.drop_last().last() == left);
    assert(members_in(after.drop_last()) == members_in(after.drop_last().drop_last())
        + left@.len());
    assert(members_in(shifted) == members_in(shifted.drop_last()) + before[last]@.len());
    assert(members_in(after) == n);
    assert forall|b: int| 0 <= b < after.len() implies (#[trigger] after[b])@.len() > 0 by {
        if b < last {
            assert(before[last]@.len() > 0);
            assert(before[b]@.len() > 0);
        }
    }
    assert forall|b: int, k: int|
        #![trigger after[b]@[k]]
        0 <= b < after.len() && 0 <= k < after[b]@.len() implies after[b]@[k] < n by {
        if b < last {
            if b == i {
                assert(before[last]@[k] < n);
            } else {
                assert(before[b]@[k] < n);
            }
        } else if b == last {
            assert(left@[k] == sorted[k]);
        } else {
            assert(right@[k] == sorted[k + half]);
        }
    }
    assert forall|x: usize| x < n implies #[trigger] boxed(after, x) by {
        assert(boxed(before, x));
        let b = choose|b: int| 0 <= b < before.len() && (#[trigger] before[b])@.contains(x);
        if b == i {
            assert(sorted.contains(x));
            let q = choose|q: int| 0 <= q < sorted.len() && sorted[q] == x;
            if q < half {
                assert(left@[q] == x);
                assert(after[last]@.contains(x));
            } else {
                assert(right@[q - half] == x);
                assert(after[last + 1]@.contains(x));
            }
        } else if b == last {
            assert(after[i] == before[last]);
            assert(after[i]@.contains(x));
        } else {
            assert(after[b] == before[b]);
            assert(after[b]@.contains(x));
        }
    }
}

/// Halve box `i` along the axis on which it spreads furthest.
fn cut_box<G: Fn(usize, AxisKeys, AxisKeys) -> u32>(
    keys: &Vec<AxisKeys>,
    gap: &G,
    boxes: &mut Vec<Vec<usize>>,
    i: usize,
)
    requires
        pure3(*gap),
        is_partition(old(boxes)@, keys@.len() as int),
        i < old(boxes)@.len(),
        old(boxes)@[i as int]@.len() >= 2,
    ensures
        is_cut(keys@, *gap, old(boxes)@, final(boxes)@, i as int),
        is_partition(final(boxes)@, keys@.len() as int),
{
    let ghost before = boxes@;
    let members: Vec<usize> = boxes.swap_remove(i);
    assert(members == before[i as int]);
    assert forall|m: int| 0 <= m < members@.len() implies #[trigger] members@[m] < keys@.len() by {
        assert(before[i as int]@[m] < keys@.len());
    }
    let (axis, _best) = measure(keys, gap, &members);
    let mut sorted: Vec<usize> = sort_along(keys, &members, axis);
    let ghost whole = sorted@;
    let mid: usize = sorted.len() / 2;
    let right: Vec<usize> = sorted.split_off(mid);
    boxes.push(sorted);
    boxes.push(right);
    proof {
        let m = before.len() - 1;
        assert(boxes@[m]@ =~= whole.take(whole.len() as int / 2));
        assert(boxes@[m + 1]@ =~= whole.skip(whole.len() as int / 2));
        assert(sorted_along(
            keys@,
            before[i as int]@,
            spread(keys@, *gap, before[i as int]@).0,
            whole,
        ));
        assert(is_cut(keys@, *gap, before, boxes@, i as int));
        lemma_cut_keeps_partition(before, boxes@, i as int, whole, keys@.len() as int);
    }
}

/// Median cut: split the points into at most `k` boxes, each time halving the
/// box that reaches furthest along an axis, until none reaches `floor`. The
/// boxes come back as lists of points.
pub fn median_cut<G: Fn(usize, AxisKeys, AxisKeys) -> u32>(
    keys: &Vec<AxisKeys>,
    k: usize,
    floor: u32,
    gap: &G,
) -> (boxes: Vec<Vec<usize>>)
    requires
        pure3(*gap),
    ensures
        keys@.len() == 0 ==> boxes@.len() == 0,
        keys@.len() > 0 ==> {
            &&& is_partition(boxes@, keys@.len() as int)
            &&& 1 <= boxes@.len() <= if k == 0 {
                1
            } else {
                k as int
            }
            &&& exists|states: Seq<Seq<Vec<usize>>>| #[trigger]
                is_cutting(keys@, *gap, states, k as int, floor) && states.last() == boxes@
        },
{
    let n: usize = keys.len();
    let mut boxes: Vec<Vec<usize>> = Vec::new();
    if n == 0 {
        return boxes;
    }
    let mut all: Vec<usize> = Vec::new();
    while all.len() < n
        invariant
            all@.len() <= n,
            forall|i: int| 0 <= i < all@.len() ==> #[trigger] all@[i] == i,
        decreases n - all@.len(),
    {
        let next: usize = all.len();
        all.push(next);
    }
    assert(all@ =~= Seq::new(keys@.len(), |i: int| i as usize));
    boxes.push(all);
    let ghost mut states: Seq<Seq<Vec<usize>>> = seq![boxes@];
    proof {
        assert(boxes@.drop_last().len() == 0);
        assert(members_in(boxes@.drop_last()) == 0);
        assert(members_in(boxes@) == n);
        assert forall|x: usize| x < n implies #[trigger] boxed(boxes@, x) by {
            assert(boxes@[0]@[x as int] == x);
            assert(boxes@[0]@.contains(x));
        }
        assert(is_partition(boxes@, n as int));
    }
    let mut done: bool = false;
    while !done
        invariant
            n == keys@.len(),
            n > 0,
            pure3(*gap),
            is_partition(boxes@, n as int),
            1 <= boxes@.len(),
            boxes@.len() <= if k == 0 {
                1
            } else {
                k as int
            },
            states.len() > 0,
            states.last() == boxes@,
            states[0].len() == 1,
            states[0][0]@ == Seq::new(keys@.len(), |i: int| i as usize),
            cuts_follow(keys@, *gap, states, k as int, floor),
            done ==> cutting_ends(keys@, *gap, boxes@, k as int, floor),
        decreases k + 1 - boxes@.len(), if done { 0int } else { 1int },
    {
        if boxes.len() >= k {
            done = true;
        } else {
            match find_widest(keys, gap, &boxes) {
                None => {
                    done = true;
                },
                Some((i, best)) => {
                    if best < floor {
                        done = true;
                    } else {
                        let ghost before = boxes@;
                        assert(!cutting_ends(keys@, *gap, before, k as int, floor));
                        cut_box(keys, gap, &mut boxes, i);
                        proof {
                            lemma_one_more_cut(keys@, *gap, states, boxes@, k as int, floor);
                            states = states.push(boxes@);
                        }
                    }
                },
            }
        }
    }
    assert(is_cutting(keys@, *gap, states, k as int, floor));
    boxes
}

} // verus!
