//! What the ways of grouping colours give: histograms and tones, k-means and its seeds, and
//! median cut.

use crate::cluster::{
    below, cutting_ends, highest, is_best_split, is_cut, is_cutting, is_nearest_centre, is_round, is_run, level_sum,
    lowest, member_sum, moved_centre, separation, sorted_along, splits_at, spread,
    widest_box, AxisKeys, Rounds,
};
use crate::centres::{box_sum, grown, mass_upto, nearest_gap, nearest_gaps, spent_at};
use crate::order::{is_stable_order, sorts_before};
use crate::pure::{value1, value2, value3, value4};
use crate::color::Rgba8;
use crate::config::Billionths;
use crate::filter::{around, Around};
use crate::palette::{entries_of, points_of, tones_at, wanted, ToneCalls};
use crate::quantize::{
    distances, is_sample, matchable, rng_output, rng_step, sample_stride, sampled, Palette,
    UNREACHABLE,
};
use crate::raster::Raster;
use crate::segment::measured_color;
use crate::twotone::{histogram_of, side_sum};
use vstd::prelude::*;

verus! {

// ---- Histograms ---------------------------------------------------------

/// A bin holds as many pixels as fall into it.
pub proof fn law_bins_count_their_pixels<C, B: Fn(C) -> Option<u8>>(bin: B, data: Seq<C>, b: u8)
    requires
        data.len() <= u64::MAX,
    ensures
        histogram_of(bin, data, data.len() as int).len() == 256,
        histogram_of(bin, data, data.len() as int)[b as int] == data.filter(
            |c: C| value1(bin, c) == Some(b),
        ).len(),
{
    lemma_bins(bin, data, data.len() as int, b);
    assert(data.take(data.len() as int) =~= data);
}

proof fn lemma_bins<C, B: Fn(C) -> Option<u8>>(bin: B, data: Seq<C>, k: int, b: u8)
    requires
        0 <= k <= data.len() <= u64::MAX,
    ensures
        histogram_of(bin, data, k).len() == 256,
        histogram_of(bin, data, k)[b as int] == data.take(k).filter(
            |c: C| value1(bin, c) == Some(b),
        ).len(),
        histogram_of(bin, data, k)[b as int] <= k,
    decreases k,
{
    reveal(Seq::filter);
    if k > 0 {
        lemma_bins(bin, data, k - 1, b);
        assert(data.take(k).drop_last() =~= data.take(k - 1));
        assert(data.take(k).last() == data[k - 1]);
    }
}

/// The pixels in the bins from `lo` to before `hi`.
pub open spec fn pixels_in(hist: Seq<u64>, lo: int, hi: int) -> int
    decreases hi - lo,
{
    if hi <= lo {
        0
    } else {
        hist[lo] + pixels_in(hist, lo + 1, hi)
    }
}

/// The sum of their levels.
pub open spec fn levels_in(hist: Seq<u64>, lo: int, hi: int) -> int
    decreases hi - lo,
{
    if hi <= lo {
        0
    } else {
        lo * hist[lo] + levels_in(hist, lo + 1, hi)
    }
}

proof fn lemma_sums(hist: Seq<u64>, lo: int, t: int)
    requires
        0 <= lo <= t + 1 <= hist.len(),
    ensures
        below(hist, t) == below(hist, lo - 1) + pixels_in(hist, lo, t + 1),
        level_sum(hist, t) == level_sum(hist, lo - 1) + levels_in(hist, lo, t + 1),
    decreases t + 1 - lo,
{
    if lo <= t {
        lemma_sums(hist, lo + 1, t);
        assert(lo * hist[lo] >= 0) by (nonlinear_arith)
            requires
                lo >= 0,
                hist[lo] >= 0,
        ;
    }
}

/// A split after bin `t` is judged by the pixels on its dark side, those on its light
/// side, and the sums of the levels of both; it has pixels on both sides.
pub proof fn law_splits_weigh_both_sides<F: Fn(u64, u64, u64, u64) -> u64>(
    hist: Seq<u64>,
    variance: F,
    t: int,
)
    requires
        0 <= t < hist.len(),
    ensures
        splits_at(hist, t) <==> pixels_in(hist, 0, t + 1) > 0 && pixels_in(
            hist,
            t + 1,
            hist.len() as int,
        ) > 0,
        separation(hist, variance, t) == value4(
            variance,
            pixels_in(hist, 0, t + 1) as u64,
            pixels_in(hist, t + 1, hist.len() as int) as u64,
            levels_in(hist, 0, t + 1) as u64,
            levels_in(hist, t + 1, hist.len() as int) as u64,
        ),
{
    lemma_sums(hist, 0, t);
    lemma_sums(hist, t + 1, hist.len() - 1);
}

/// The split that is taken separates the sides at least as well as any other, and better
/// than any before it; without a split the middle is taken.
pub proof fn law_the_first_best_split_is_taken<F: Fn(u64, u64, u64, u64) -> u64>(
    hist: Seq<u64>,
    variance: F,
    t: int,
    k: int,
)
    requires
        is_best_split(hist, variance, hist.len() as int, t),
        0 <= k < hist.len(),
        splits_at(hist, k),
    ensures
        0 <= t < hist.len(),
        splits_at(hist, t),
        separation(hist, variance, t) >= separation(hist, variance, k),
        separation(hist, variance, t) == separation(hist, variance, k) ==> t <= k,
{
}

/// Where no split has pixels on both sides the middle is taken.
pub proof fn law_without_a_split_the_middle_is_taken<F: Fn(u64, u64, u64, u64) -> u64>(
    hist: Seq<u64>,
    variance: F,
    t: int,
)
    requires
        is_best_split(hist, variance, hist.len() as int, t),
        forall|k: int| 0 <= k < hist.len() ==> !#[trigger] splits_at(hist, k),
    ensures
        2 * t == 256,
{
}

/// A tone is made of the opaque pixels of its side, in order, and of no others.
pub proof fn law_tones_are_of_their_side<
    C,
    V,
    A,
    K: Fn(C) -> bool,
    L: Fn(V, C) -> bool,
    F: Fn(A, C) -> A,
>(clear: K, light: L, level: V, plus: F, zero: A, data: Seq<C>, side: bool)
    ensures
        side_sum(clear, light, level, plus, zero, data, side, data.len() as int) == data.filter(
            |c: C| !value1(clear, c) && value2(light, level, c) == side,
        ).fold_left(zero, |a: A, c: C| value2(plus, a, c)),
{
    lemma_side(clear, light, level, plus, zero, data, side, data.len() as int);
    assert(data.take(data.len() as int) =~= data);
}

proof fn lemma_side<C, V, A, K: Fn(C) -> bool, L: Fn(V, C) -> bool, F: Fn(A, C) -> A>(
    clear: K,
    light: L,
    level: V,
    plus: F,
    zero: A,
    data: Seq<C>,
    side: bool,
    k: int,
)
    requires
        0 <= k <= data.len(),
    ensures
        side_sum(clear, light, level, plus, zero, data, side, k) == data.take(k).filter(
            |c: C| !value1(clear, c) && value2(light, level, c) == side,
        ).fold_left(zero, |a: A, c: C| value2(plus, a, c)),
    decreases k,
{
    reveal(Seq::filter);
    if k > 0 {
        lemma_side(clear, light, level, plus, zero, data, side, k - 1);
        let keep = |c: C| !value1(clear, c) && value2(light, level, c) == side;
        assert(data.take(k).drop_last() =~= data.take(k - 1));
        assert(data.take(k).last() == data[k - 1]);
        let before = data.take(k - 1).filter(keep);
        if keep(data[k - 1]) {
            assert(before.push(data[k - 1]).drop_last() =~= before);
        }
    }
}

/// The first tone of a two-tone palette is the dark one, the second the light one, and
/// the other way round where they are swapped; both are painted.
pub proof fn law_tones_are_dark_and_light<
    C,
    L,
    V,
    A,
    FA: Fn(C) -> bool,
    FB: Fn(C) -> Option<u8>,
    FQ: Fn(u64, u64, u64, u64) -> u64,
    FG: Fn(Billionths) -> V,
    FO: Fn(Option<usize>) -> V,
    FH: Fn(V, C) -> bool,
    FP: Fn(A, C) -> A,
    FF: Fn(A, bool) -> (Rgba8, L),
>(
    clear: FA,
    t: ToneCalls<A, FB, FQ, FG, FO, FH, FP, FF>,
    data: Seq<C>,
    invert: bool,
    level: V,
    light: bool,
)
    ensures
        ({
            let sum = data.filter(
                |c: C| !value1(clear, c) && value2(t.light, level, c) == light,
            ).fold_left(t.zero, |a: A, c: C| value2(t.plus, a, c));
            let tone = value2(t.finish, sum, light);
            let entries = tones_at(clear, t, data, invert, level);
            let entry = entries[if light != invert {
                1
            } else {
                0
            }];
            &&& entries.len() == 2
            &&& entry.color == tone.0
            &&& entry.lab == tone.1
            &&& !entry.transparent
        }),
{
    law_tones_are_of_their_side(clear, t.light, level, t.plus, t.zero, data, light);
}

// ---- Samples and labels -------------------------------------------------

proof fn lemma_sampled(opaque: Seq<bool>, start: int, stride: int, m: int, i: int)
    requires
        0 <= m <= opaque.len() <= usize::MAX,
        stride >= 1,
    ensures
        ({
            let hits = sampled(opaque, start, stride, m);
            &&& (exists|k: int| 0 <= k < hits.len() && #[trigger] hits[k] == i) <==> (0 <= i < m
                && i >= start && (i - start) % stride == 0 && opaque[i])
            &&& forall|k: int| 0 <= k < hits.len() ==> #[trigger] hits[k] < m
            &&& forall|k: int, l: int|
                0 <= k < l < hits.len() ==> #[trigger] hits[k] < #[trigger] hits[l]
        }),
    decreases m,
{
    if m > 0 {
        lemma_sampled(opaque, start, stride, m - 1, i);
        let rest = sampled(opaque, start, stride, m - 1);
        let hits = sampled(opaque, start, stride, m);
        if hits.len() > rest.len() {
            assert(hits[rest.len() as int] == m - 1);
            if exists|k: int| 0 <= k < rest.len() && #[trigger] rest[k] == i {
                let k = choose|k: int| 0 <= k < rest.len() && #[trigger] rest[k] == i;
                assert(hits[k] == i);
            }
            if exists|k: int| 0 <= k < hits.len() && #[trigger] hits[k] == i {
                let k = choose|k: int| 0 <= k < hits.len() && #[trigger] hits[k] == i;
                if k < rest.len() {
                    assert(rest[k] == i);
                }
            }
        }
    }
}

/// A sample has the opaque pixels at even distances, from a place that the generator picks
/// on, in order and each once; so that about as many are taken as are asked for, the distance is
/// how often that number goes into the number of pixels. Where it would be empty it has
/// every pixel.
pub proof fn law_samples_are_spread_evenly(
    opaque: Seq<bool>,
    limit: int,
    state: u64,
    out: Seq<usize>,
    i: int,
) -> (start: int)
    requires
        is_sample(opaque, limit, state, out),
        0 <= i < opaque.len() <= usize::MAX,
        limit >= 1,
    ensures
        ({
            let n = opaque.len() as int;
            let apart = if n <= limit {
                1
            } else {
                n / limit
            };
            let picked = |k: int| k >= start && (k - start) % apart == 0 && opaque[k];
            &&& 0 <= start < apart
            &&& start == (rng_output(rng_step(state)) as int) % apart
            &&& forall|k: int, l: int|
                0 <= k < l < out.len() ==> #[trigger] out[k] < #[trigger] out[l]
            &&& picked(i) ==> exists|k: int| 0 <= k < out.len() && #[trigger] out[k] == i
            &&& !picked(i) && (exists|k: int| 0 <= k < out.len() && #[trigger] out[k] == i)
                ==> out.len() == n
        }),
{
    let n = opaque.len() as int;
    let apart = sample_stride(n, limit);
    if n > limit {
        assert(n / limit >= 1) by (nonlinear_arith)
            requires
                n > limit,
                limit >= 1,
        ;
    }
    let start = (rng_output(rng_step(state)) as int) % apart;
    lemma_sampled(opaque, start, apart, n, i);
    let hits = sampled(opaque, start, apart, n);
    if hits.len() == 0 {
        assert(out[i] == i);
    }
    start
}

/// A pixel is labelled with the entry nearest to its colour, the first of those as near,
/// and never with the slot for transparent pixels; a transparent one is labelled with that
/// slot where there is one.
pub proof fn law_labels_are_of_the_nearest_entry<L: Copy, D: Fn(L, L) -> u32>(
    palette: Palette<L>,
    dist: D,
    lab: L,
    label: u32,
    transparent: bool,
    i: int,
)
    requires
        palette.is_label(dist, transparent, lab, label),
        0 <= i < palette.entries@.len() <= usize::MAX,
        palette.alpha_slot != Some(i as usize),
        value2(dist, palette.entries@[i].lab, lab) < UNREACHABLE,
    ensures
        transparent && palette.alpha_slot is Some ==> Some(label as usize) == palette.alpha_slot,
        !(transparent && palette.alpha_slot is Some) ==> {
            let there = value2(dist, palette.entries@[label as int].lab, lab);
            let here = value2(dist, palette.entries@[i].lab, lab);
            &&& label < palette.entries@.len()
            &&& palette.alpha_slot != Some(label as usize)
            &&& there <= here
            &&& there == here ==> label <= i
        },
{
    let list = distances(dist, palette.entries@, lab);
    assert(matchable(list, palette.alpha_slot, i));
}

// ---- k-means ------------------------------------------------------------

/// In every round a point joins a centre that no other is nearer to, and of equally near
/// ones the first.
pub proof fn law_points_join_the_nearest_centre<
    X,
    L,
    A,
    D: Fn(X, L) -> u32,
    F: Fn(A, X) -> A,
    M: Fn(A) -> Option<L>,
>(
    run: Rounds<L>,
    pts: Seq<X>,
    start: Seq<L>,
    limit: int,
    dist: D,
    zero: A,
    plus: F,
    finish: M,
    r: int,
    i: int,
    k: int,
)
    requires
        is_run(run, pts, start, limit, dist, zero, plus, finish),
        0 <= r < run.groups.len(),
        0 <= i < pts.len(),
        0 <= k < run.centres[r].len(),
    ensures
        ({
            let g = run.groups[r][i] as int;
            &&& 0 <= g < run.centres[r].len()
            &&& value2(dist, pts[i], run.centres[r][g]) <= value2(dist, pts[i], run.centres[r][k])
            &&& value2(dist, pts[i], run.centres[r][g]) == value2(dist, pts[i], run.centres[r][k])
                ==> g <= k
        }),
{
    assert(run.groups[r].len() == pts.len());
    assert(is_round(
        pts,
        run.groups[r],
        run.centres[r],
        run.centres[r + 1],
        dist,
        zero,
        plus,
        finish,
    ));
    let g = run.groups[r][i];
    assert(is_nearest_centre(run.centres[r], dist, pts[i], g as int));
    let c = run.centres[r][k];
}

/// The members of a group, in order.
pub open spec fn members_of<X>(pts: Seq<X>, groups: Seq<u32>, g: int) -> Seq<X>
    decreases groups.len(),
{
    if groups.len() == 0 {
        seq![]
    } else {
        let before = members_of(pts, groups.drop_last(), g);
        if groups.last() == g {
            before.push(pts[groups.len() - 1])
        } else {
            before
        }
    }
}

proof fn lemma_members<X, A, F: Fn(A, X) -> A>(
    pts: Seq<X>,
    groups: Seq<u32>,
    g: int,
    zero: A,
    plus: F,
    n: int,
)
    requires
        0 <= n <= groups.len(),
    ensures
        member_sum(pts, groups, g, zero, plus, n) == members_of(
            pts,
            groups.take(n),
            g,
        ).fold_left(zero, |a: A, x: X| value2(plus, a, x)),
    decreases n,
{
    if n > 0 {
        lemma_members(pts, groups, g, zero, plus, n - 1);
        assert(groups.take(n).drop_last() =~= groups.take(n - 1));
        let before = members_of(pts, groups.take(n - 1), g);
        if groups[n - 1] == g {
            assert(before.push(pts[n - 1]).drop_last() =~= before);
        }
    }
}

/// In every round a centre moves to the mean of the points that joined it, added up in
/// order; where there is no mean, as of none, it stays.
pub proof fn law_centres_move_to_their_members<
    X,
    L,
    A,
    D: Fn(X, L) -> u32,
    F: Fn(A, X) -> A,
    M: Fn(A) -> Option<L>,
>(
    run: Rounds<L>,
    pts: Seq<X>,
    start: Seq<L>,
    limit: int,
    dist: D,
    zero: A,
    plus: F,
    finish: M,
    r: int,
    g: int,
)
    requires
        is_run(run, pts, start, limit, dist, zero, plus, finish),
        0 <= r < run.groups.len(),
        0 <= g < run.centres[r].len(),
    ensures
        run.centres[r + 1].len() == run.centres[r].len(),
        ({
            let sum = members_of(pts, run.groups[r], g).fold_left(
                zero,
                |a: A, x: X| value2(plus, a, x),
            );
            match value1(finish, sum) {
                Some(c) => run.centres[r + 1][g] == c,
                None => run.centres[r + 1][g] == run.centres[r][g],
            }
        }),
{
    let groups = run.groups[r];
    assert(groups.len() == pts.len());
    lemma_members(pts, groups, g, zero, plus, groups.len() as int);
    assert(groups.take(groups.len() as int) =~= groups);
    assert(run.centres[r + 1][g] == moved_centre(
        pts,
        groups,
        run.centres[r],
        g,
        zero,
        plus,
        finish,
    ));
}

/// A run goes from the centres it is given for no more rounds than it may, and stops before
/// that only after a round in which no point changed its group.
pub proof fn law_rounds_go_on_while_points_move<
    X,
    L,
    A,
    D: Fn(X, L) -> u32,
    F: Fn(A, X) -> A,
    M: Fn(A) -> Option<L>,
>(
    run: Rounds<L>,
    pts: Seq<X>,
    start: Seq<L>,
    limit: int,
    dist: D,
    zero: A,
    plus: F,
    finish: M,
    r: int,
)
    requires
        is_run(run, pts, start, limit, dist, zero, plus, finish),
        limit >= 0,
    ensures
        run.centres[0] == start,
        run.groups.len() <= limit,
        run.groups.len() < limit && run.groups.len() >= 2 ==> run.groups.last()
            == run.groups[run.groups.len() - 2],
        run.groups.len() < limit ==> run.groups.len() > 0,
        run.groups.len() == 1 < limit ==> forall|i: int|
            0 <= i < pts.len() ==> #[trigger] run.groups[0][i] == 0,
        0 < r < run.groups.len() - 1 ==> run.groups[r] != run.groups[r - 1],
{
    if run.groups.len() > 0 {
        let last = run.groups[run.groups.len() - 1];
        assert(last.len() == pts.len());
    }
    if 0 < r < run.groups.len() - 1 {
        let g = run.groups[r];
    }
}

// ---- Seeds --------------------------------------------------------------

/// How far a point is from what was chosen is how far it is from the nearest of them.
pub proof fn law_gaps_are_to_the_nearest<X, L, D: Fn(X, L) -> u32>(
    dist: D,
    pts: Seq<X>,
    labs: Seq<L>,
    chosen: Seq<usize>,
    i: int,
)
    requires
        0 <= i < labs.len(),
        chosen.len() > 0,
    ensures
        nearest_gaps(dist, pts, labs, chosen).len() == labs.len(),
        forall|j: int|
            0 <= j < chosen.len() ==> nearest_gaps(dist, pts, labs, chosen)[i] <= value2(
                dist,
                pts[i],
                labs[#[trigger] chosen[j] as int],
            ),
        exists|j: int|
            0 <= j < chosen.len() && nearest_gaps(dist, pts, labs, chosen)[i] == value2(
                dist,
                pts[i],
                labs[#[trigger] chosen[j] as int],
            ),
{
    lemma_gap(dist, pts, labs, chosen, i, chosen.len() as int);
}

proof fn lemma_gap<X, L, D: Fn(X, L) -> u32>(
    dist: D,
    pts: Seq<X>,
    labs: Seq<L>,
    chosen: Seq<usize>,
    i: int,
    k: int,
)
    requires
        1 <= k <= chosen.len(),
    ensures
        forall|j: int|
            0 <= j < k ==> nearest_gap(dist, pts, labs, chosen, i, k) <= value2(
                dist,
                pts[i],
                labs[#[trigger] chosen[j] as int],
            ),
        exists|j: int|
            0 <= j < k && nearest_gap(dist, pts, labs, chosen, i, k) == value2(
                dist,
                pts[i],
                labs[#[trigger] chosen[j] as int],
            ),
    decreases k,
{
    if k > 1 {
        lemma_gap(dist, pts, labs, chosen, i, k - 1);
        let g = value2(dist, pts[i], labs[chosen[k - 1] as int]);
    } else {
        let g = value2(dist, pts[i], labs[chosen[0] as int]);
    }
}

/// What is left of a share once it was spent on the points before `i`.
pub open spec fn left_before<X, T, S: Fn(T, u32, X) -> T>(
    spend: S,
    pts: Seq<X>,
    gaps: Seq<u32>,
    share: T,
    i: int,
) -> T
    decreases i,
{
    if i <= 0 {
        share
    } else {
        value3(
            spend,
            left_before(spend, pts, gaps, share, i - 1),
            gaps[i - 1],
            pts[i - 1],
        )
    }
}

proof fn lemma_spent<X, T, S: Fn(T, u32, X) -> T, E: Fn(T) -> bool>(
    spend: S,
    spent: E,
    pts: Seq<X>,
    gaps: Seq<u32>,
    share: T,
    i: int,
)
    requires
        0 <= i <= gaps.len(),
        gaps.len() > 0,
        forall|j: int|
            0 <= j < i ==> !value1(spent, #[trigger] left_before(spend, pts, gaps, share, j + 1)),
    ensures
        ({
            let c = spent_at(
                spend,
                spent,
                pts,
                gaps,
                left_before(spend, pts, gaps, share, i),
                i,
            );
            &&& 0 <= c < gaps.len()
            &&& c < gaps.len() - 1 ==> value1(
                spent,
                left_before(spend, pts, gaps, share, c + 1),
            )
            &&& forall|j: int|
                0 <= j < c ==> !value1(
                    spent,
                    #[trigger] left_before(spend, pts, gaps, share, j + 1),
                )
        }),
    decreases gaps.len() - i,
{
    if i < gaps.len() {
        let rest = left_before(spend, pts, gaps, share, i + 1);
        if !value1(spent, rest) {
            lemma_spent(spend, spent, pts, gaps, share, i + 1);
        }
    }
}

/// What the points weigh together, one after the other.
pub open spec fn weight_of<X, T, W: Fn(T, u32, X) -> T>(
    weigh: W,
    none: T,
    pts: Seq<X>,
    gaps: Seq<u32>,
) -> T {
    Seq::new(gaps.len(), |i: int| (gaps[i], pts[i])).fold_left(
        none,
        |t: T, p: (u32, X)| value3(weigh, t, p.0, p.1),
    )
}

proof fn lemma_mass<X, T, W: Fn(T, u32, X) -> T>(
    weigh: W,
    none: T,
    pts: Seq<X>,
    gaps: Seq<u32>,
    k: int,
)
    requires
        0 <= k <= gaps.len(),
    ensures
        mass_upto(weigh, none, pts, gaps, k) == Seq::new(
            k as nat,
            |i: int| (gaps[i], pts[i]),
        ).fold_left(none, |t: T, p: (u32, X)| value3(weigh, t, p.0, p.1)),
    decreases k,
{
    if k > 0 {
        lemma_mass(weigh, none, pts, gaps, k - 1);
        let all = Seq::new(k as nat, |i: int| (gaps[i], pts[i]));
        assert(all.drop_last() =~= Seq::new((k - 1) as nat, |i: int| (gaps[i], pts[i])));
    }
}

/// Seeding ends where enough points are chosen or the rest weigh too little. Otherwise the
/// next random number aims at a share of the weight, and the next choice is the first
/// point at which that share is spent, or the last one.
pub proof fn law_the_next_seed_spends_its_share<
    X,
    L,
    T,
    D: Fn(X, L) -> u32,
    W: Fn(T, u32, X) -> T,
    H: Fn(T) -> bool,
    A: Fn(T, u64) -> T,
    S: Fn(T, u32, X) -> T,
    E: Fn(T) -> bool,
>(
    dist: D,
    weigh: W,
    heavy: H,
    aim: A,
    spend: S,
    spent: E,
    none: T,
    pts: Seq<X>,
    labs: Seq<L>,
    chosen: Seq<usize>,
    state: u64,
    k: int,
) -> (c: usize)
    requires
        0 < labs.len() <= usize::MAX,
    ensures
        ({
            let gaps = nearest_gaps(dist, pts, labs, chosen);
            let weight = weight_of(weigh, none, pts, gaps);
            let next = rng_step(state);
            let share = value2(aim, weight, rng_output(next));
            let all = grown(
                dist,
                weigh,
                heavy,
                aim,
                spend,
                spent,
                none,
                pts,
                labs,
                chosen,
                state,
                k,
            );
            &&& (chosen.len() >= k || !value1(heavy, weight)) ==> all == (chosen, state)
            &&& chosen.len() < k && value1(heavy, weight) ==> {
                &&& c < labs.len()
                &&& all == grown(
                    dist,
                    weigh,
                    heavy,
                    aim,
                    spend,
                    spent,
                    none,
                    pts,
                    labs,
                    chosen.push(c),
                    next,
                    k,
                )
                &&& c < labs.len() - 1 ==> value1(
                    spent,
                    left_before(spend, pts, gaps, share, c + 1),
                )
                &&& forall|j: int|
                    0 <= j < c ==> !value1(
                        spent,
                        #[trigger] left_before(spend, pts, gaps, share, j + 1),
                    )
            }
        }),
{
    let gaps = nearest_gaps(dist, pts, labs, chosen);
    lemma_mass(weigh, none, pts, gaps, labs.len() as int);
    let share = value2(aim, weight_of(weigh, none, pts, gaps), rng_output(rng_step(state)));
    lemma_spent(spend, spent, pts, gaps, share, 0);
    spent_at(spend, spent, pts, gaps, share, 0) as usize
}

/// The colour of a box is made of all of its members, in order.
pub proof fn law_boxes_add_up_their_members<X, B, F: Fn(B, X) -> B>(
    plus: F,
    zero: B,
    pts: Seq<X>,
    members: Seq<usize>,
)
    ensures
        box_sum(plus, zero, pts, members, members.len() as int) == Seq::new(
            members.len(),
            |i: int| pts[members[i] as int],
        ).fold_left(zero, |b: B, x: X| value2(plus, b, x)),
{
    lemma_box(plus, zero, pts, members, members.len() as int);
}

proof fn lemma_box<X, B, F: Fn(B, X) -> B>(
    plus: F,
    zero: B,
    pts: Seq<X>,
    members: Seq<usize>,
    k: int,
)
    requires
        0 <= k <= members.len(),
    ensures
        box_sum(plus, zero, pts, members, k) == Seq::new(
            k as nat,
            |i: int| pts[members[i] as int],
        ).fold_left(zero, |b: B, x: X| value2(plus, b, x)),
    decreases k,
{
    if k > 0 {
        lemma_box(plus, zero, pts, members, k - 1);
        let all = Seq::new(k as nat, |i: int| pts[members[i] as int]);
        assert(all.drop_last() =~= Seq::new((k - 1) as nat, |i: int| pts[members[i] as int]));
    }
}

// ---- Median cut ---------------------------------------------------------

/// How far a point lies along an axis: lightness, then the two colour axes.
pub open spec fn position(k: AxisKeys, axis: int) -> int {
    if axis == 0 {
        k.l as int
    } else if axis == 1 {
        k.a as int
    } else {
        k.b as int
    }
}

proof fn lemma_outermost(keys: Seq<AxisKeys>, members: Seq<usize>, axis: int)
    requires
        members.len() > 0,
    ensures
        members.contains(lowest(keys, members, axis)),
        members.contains(highest(keys, members, axis)),
        forall|i: int|
            0 <= i < members.len() ==> position(
                keys[lowest(keys, members, axis) as int],
                axis,
            ) <= position(keys[#[trigger] members[i] as int], axis) <= position(
                keys[highest(keys, members, axis) as int],
                axis,
            ),
    decreases members.len(),
{
    if members.len() > 1 {
        let rest = members.drop_last();
        lemma_outermost(keys, rest, axis);
        let a = choose|a: int| 0 <= a < rest.len() && rest[a] == lowest(keys, rest, axis);
        assert(members[a] == rest[a]);
        let b = choose|b: int| 0 <= b < rest.len() && rest[b] == highest(keys, rest, axis);
        assert(members[b] == rest[b]);
        assert(members[members.len() - 1] == members.last());
        assert forall|i: int| 0 <= i < members.len() implies position(
            keys[lowest(keys, members, axis) as int],
            axis,
        ) <= position(keys[#[trigger] members[i] as int], axis) <= position(
            keys[highest(keys, members, axis) as int],
            axis,
        ) by {
            if i < rest.len() {
                assert(rest[i] == members[i]);
            }
        }
    } else {
        assert(members[0] == lowest(keys, members, axis));
    }
}

/// How far a box reaches along an axis is measured between two of its members that none of
/// the others lies beyond, and a box spreads along the axis along which it reaches furthest.
pub proof fn law_boxes_spread_along_their_widest_axis<G: Fn(usize, AxisKeys, AxisKeys) -> u32>(
    keys: Seq<AxisKeys>,
    gap: G,
    members: Seq<usize>,
    axis: int,
) -> (ends: (usize, usize))
    requires
        members.len() > 0,
        0 <= axis < 3,
    ensures
        members.contains(ends.0),
        members.contains(ends.1),
        forall|i: int|
            0 <= i < members.len() ==> position(keys[ends.0 as int], axis) <= position(
                keys[#[trigger] members[i] as int],
                axis,
            ) <= position(keys[ends.1 as int], axis),
        0 <= spread(keys, gap, members).0 < 3,
        spread(keys, gap, members).1 >= value3(
            gap,
            axis as usize,
            keys[ends.0 as int],
            keys[ends.1 as int],
        ),
        spread(keys, gap, members).0 == axis ==> spread(keys, gap, members).1 == value3(
            gap,
            axis as usize,
            keys[ends.0 as int],
            keys[ends.1 as int],
        ),
{
    lemma_outermost(keys, members, axis);
    (lowest(keys, members, axis), highest(keys, members, axis))
}

/// The box that is cut spreads at least as far as every other that has two members.
pub proof fn law_the_widest_box_is_cut<G: Fn(usize, AxisKeys, AxisKeys) -> u32>(
    keys: Seq<AxisKeys>,
    gap: G,
    boxes: Seq<Vec<usize>>,
    b: int,
)
    requires
        0 <= b < boxes.len(),
        boxes[b]@.len() >= 2,
    ensures
        match widest_box(keys, gap, boxes, boxes.len() as int) {
            Some(w) => {
                &&& 0 <= w.0 < boxes.len()
                &&& boxes[w.0]@.len() >= 2
                &&& w.1 == spread(keys, gap, boxes[w.0]@).1
                &&& w.1 >= spread(keys, gap, boxes[b]@).1
                &&& w.1 == spread(keys, gap, boxes[b]@).1 ==> w.0 <= b
            },
            None => spread(keys, gap, boxes[b]@).1 == 0,
        },
{
    lemma_widest(keys, gap, boxes, boxes.len() as int, b);
}

proof fn lemma_widest<G: Fn(usize, AxisKeys, AxisKeys) -> u32>(
    keys: Seq<AxisKeys>,
    gap: G,
    boxes: Seq<Vec<usize>>,
    n: int,
    b: int,
)
    requires
        0 <= n <= boxes.len(),
        0 <= b < n,
        boxes[b]@.len() >= 2,
    ensures
        match widest_box(keys, gap, boxes, n) {
            Some(w) => {
                &&& 0 <= w.0 < n
                &&& boxes[w.0]@.len() >= 2
                &&& w.1 == spread(keys, gap, boxes[w.0]@).1
                &&& w.1 >= spread(keys, gap, boxes[b]@).1
                &&& w.1 == spread(keys, gap, boxes[b]@).1 ==> w.0 <= b
            },
            None => spread(keys, gap, boxes[b]@).1 == 0,
        },
    decreases n,
{
    lemma_widest_sound(keys, gap, boxes, n - 1);
    if b < n - 1 {
        lemma_widest(keys, gap, boxes, n - 1, b);
    }
}

proof fn lemma_widest_sound<G: Fn(usize, AxisKeys, AxisKeys) -> u32>(
    keys: Seq<AxisKeys>,
    gap: G,
    boxes: Seq<Vec<usize>>,
    n: int,
)
    ensures
        match widest_box(keys, gap, boxes, n) {
            Some(w) => {
                &&& 0 <= w.0 < n
                &&& boxes[w.0]@.len() >= 2
                &&& w.1 == spread(keys, gap, boxes[w.0]@).1
                &&& w.1 > 0
            },
            None => true,
        },
    decreases n,
{
    if n > 0 {
        lemma_widest_sound(keys, gap, boxes, n - 1);
    }
}

/// The cutting goes on while there are fewer boxes than asked for and one with two members
/// spreads at least as far as the floor, and then it stops.
pub proof fn law_cutting_goes_on_while_it_can<G: Fn(usize, AxisKeys, AxisKeys) -> u32>(
    keys: Seq<AxisKeys>,
    gap: G,
    states: Seq<Seq<Vec<usize>>>,
    k: int,
    floor: u32,
    s: int,
    b: int,
)
    requires
        is_cutting(keys, gap, states, k, floor),
        0 <= s < states.len(),
        floor > 0,
        0 <= b < states[s].len(),
        states[s][b]@.len() >= 2,
    ensures
        states[0].len() == 1,
        s == states.len() - 1 ==> states[s].len() >= k || spread(keys, gap, states[s][b]@).1 < floor,
        s < states.len() - 1 ==> states[s].len() < k && states[s + 1].len() == states[s].len() + 1,
        s < states.len() - 1 ==> widest_box(keys, gap, states[s], states[s].len() as int) is Some
            && (widest_box(keys, gap, states[s], states[s].len() as int)->0).1 >= floor,
{
    law_the_widest_box_is_cut(keys, gap, states[s], b);
    if s < states.len() - 1 {
        let now = states[s];
        assert(!cutting_ends(keys, gap, now, k, floor));
    }
}

/// A cut divides a box in two: half of its members, rounded down, go to one part, the rest
/// to the other, and along the axis of the box no member of the first part lies beyond one
/// of the second. Every member is in one of the parts.
pub proof fn law_cuts_divide_at_the_middle<G: Fn(usize, AxisKeys, AxisKeys) -> u32>(
    keys: Seq<AxisKeys>,
    gap: G,
    before: Seq<Vec<usize>>,
    after: Seq<Vec<usize>>,
    i: int,
)
    requires
        is_cut(keys, gap, before, after, i),
        before[i]@.len() <= usize::MAX,
    ensures
        ({
            let n = before.len() as int;
            let m = before[i]@.len();
            let low = after[n - 1]@;
            let high = after[n]@;
            let axis = spread(keys, gap, before[i]@).0;
            &&& after.len() == n + 1
            &&& low.len() == m / 2
            &&& low.len() + high.len() == m
            &&& forall|a: int, b: int|
                0 <= a < low.len() && 0 <= b < high.len() ==> position(
                    keys[#[trigger] low[a] as int],
                    axis,
                ) <= position(keys[#[trigger] high[b] as int], axis)
            &&& forall|a: int| 0 <= a < low.len() ==> before[i]@.contains(#[trigger] low[a])
            &&& forall|b: int| 0 <= b < high.len() ==> before[i]@.contains(#[trigger] high[b])
            &&& forall|c: int|
                0 <= c < m ==> low.contains(#[trigger] before[i]@[c]) || high.contains(
                    before[i]@[c],
                )
        }),
{
    let n = before.len() as int;
    let members = before[i]@;
    let m = members.len() as int;
    let axis = spread(keys, gap, members).0;
    let sorted = choose|sorted: Seq<usize>|
        {
            &&& #[trigger] sorted_along(keys, members, axis, sorted)
            &&& after[n - 1]@ == sorted.take(sorted.len() as int / 2)
            &&& after[n]@ == sorted.skip(sorted.len() as int / 2)
        };
    let ranks = crate::cluster::axis_ranks(keys, members, axis);
    let order = choose|order: Seq<usize>|
        {
            &&& #[trigger] is_stable_order(ranks, order)
            &&& sorted.len() == members.len()
            &&& forall|k: int|
                0 <= k < members.len() ==> #[trigger] sorted[k] == members[order[k] as int]
        };
    let low = after[n - 1]@;
    let high = after[n]@;
    let half = m / 2;
    assert forall|a: int, b: int| 0 <= a < low.len() && 0 <= b < high.len() implies position(
        keys[#[trigger] low[a] as int],
        axis,
    ) <= position(keys[#[trigger] high[b] as int], axis) by {
        assert(low[a] == sorted[a] && high[b] == sorted[half + b]);
        assert(sorts_before(ranks, order[a], order[half + b]));
        assert(order[a] < m && order[half + b] < m);
    }
    assert forall|a: int| 0 <= a < low.len() implies members.contains(#[trigger] low[a]) by {
        assert(low[a] == sorted[a]);
        assert(order[a] < m);
    }
    assert forall|b: int| 0 <= b < high.len() implies members.contains(#[trigger] high[b]) by {
        assert(high[b] == sorted[half + b]);
        assert(order[half + b] < m);
    }
    assert forall|c: int| 0 <= c < m implies low.contains(#[trigger] members[c]) || high.contains(
        members[c],
    ) by {
        assert(order.contains(c as usize));
        let k = choose|k: int| 0 <= k < order.len() && order[k] == c;
        assert(sorted[k] == members[c]);
        if k < half {
            assert(low[k] == members[c]);
        } else {
            assert(high[k - half] == members[c]);
        }
    }
}

// ---- Palettes and regions -----------------------------------------------

/// A palette of clustered colours has one painted entry for each centre, in order, each
/// with the colour that its centre has.
pub proof fn law_centres_are_painted_in_their_color<L, FC: Fn(L) -> Rgba8>(
    color: FC,
    centres: Seq<L>,
    i: int,
)
    requires
        0 <= i < centres.len(),
    ensures
        entries_of(color, centres).len() == centres.len(),
        entries_of(color, centres)[i].color == value1(color, centres[i]),
        entries_of(color, centres)[i].lab == centres[i],
        !entries_of(color, centres)[i].transparent,
{
}

/// Two colours are clustered at least, and otherwise as many as are asked for.
pub proof fn law_two_colors_at_least(colors: usize)
    ensures
        wanted(colors) >= 2,
        colors >= 2 ==> wanted(colors) == colors,
        colors < 2 ==> wanted(colors) == 2,
{
}

/// A pixel counts by how flat it is around it where edges are left out and there is an
/// around, and else in full; what is clustered is the pixel picked, with its weight.
pub proof fn law_pixels_count_by_their_surroundings<
    C,
    Z,
    X,
    HW: Fn(Around<C>) -> Z,
    HX: Fn(C, Z) -> X,
>(
    flat: HW,
    full: Z,
    point: HX,
    img: Raster<C>,
    ignore_edges: bool,
    picked: Seq<usize>,
    k: int,
    x: int,
    y: int,
)
    requires
        0 <= k < picked.len(),
        0 <= x < img.width,
        0 <= y < img.height,
        picked[k] == y * img.width + x,
    ensures
        ({
            let weight = if ignore_edges && img.width >= 3 && img.height >= 3 {
                value1(flat, around(img, x, y))
            } else {
                full
            };
            let points = points_of(flat, full, point, img, ignore_edges, picked);
            &&& points.len() == picked.len()
            &&& points[k] == value2(point, img.data@[y * img.width + x], weight)
        }),
{
    let w = img.width as int;
    vstd::arithmetic::div_mod::lemma_fundamental_div_mod_converse(y * w + x, w, y, x);
}

/// The colour of a region is the mean of its own pixels, in order; where there is no mean
/// it is the colour of its palette entry.
pub proof fn law_regions_have_the_mean_of_their_pixels<
    X,
    L,
    A,
    F: Fn(A, X) -> A,
    M: Fn(A) -> Option<Rgba8>,
>(
    pixels: Seq<X>,
    regions: Seq<u32>,
    palette: Palette<L>,
    region_label: Seq<u32>,
    r: int,
    zero: A,
    plus: F,
    finish: M,
)
    ensures
        ({
            let sum = members_of(pixels, regions, r).fold_left(
                zero,
                |a: A, x: X| value2(plus, a, x),
            );
            measured_color(pixels, regions, palette, region_label, r, zero, plus, finish)
                == match value1(finish, sum) {
                Some(c) => c,
                None => palette.entries@[region_label[r] as int].color,
            }
        }),
{
    lemma_members(pixels, regions, r, zero, plus, regions.len() as int);
    assert(regions.take(regions.len() as int) =~= regions);
}

} // verus!
