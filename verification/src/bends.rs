//! What makes a vertex a corner, said of the bends that are measured there.

use crate::config::CornerConfig;
use crate::corners::{
    accepted_upto, are_corners, are_effective_scales, candidates_upto, clashes, corner_range,
    denoised, distinct_vertices, is_analysis, is_analyzed, is_contour_analysis, is_suppressed,
    noise_upto, persistent, same_inside, strength_keys, strengths_of, survey_upto, turn_at, vertex_distance, Analysis,
};
use crate::cracks::Arc;
use crate::order::{is_stable_order, sorts_before};
use crate::pure::{value1, value2, value3};
use crate::smoothing::contour_smoothed;
use vstd::prelude::*;

verus! {

// ---- Neighbourhoods -----------------------------------------------------

/// The bend at a vertex is measured between the points `s` steps before and after it. On
/// an open contour both must lie on it; a closed contour, whose last point repeats its
/// first, is gone round.
pub proof fn law_bends_are_measured_symmetrically<P, T, FT: Fn(P, P, P) -> Option<T>>(
    turn: FT,
    pts: Seq<P>,
    i: int,
    s: int,
)
    requires
        2 <= pts.len() <= usize::MAX,
        0 <= i < pts.len(),
        s >= 0,
    ensures
        turn_at(turn, pts, false, i, s) == (if s <= i && i + s < pts.len() {
            value3(turn, pts[i - s], pts[i], pts[i + s])
        } else {
            None
        }),
        turn_at(turn, pts, true, i, s) == value3(
            turn,
            pts[(i - s) % (pts.len() - 1)],
            pts[i],
            pts[(i + s) % (pts.len() - 1)],
        ),
{
    let m = pts.len() - 1;
    vstd::arithmetic::div_mod::lemma_mod_bound(i - s, m);
    vstd::arithmetic::div_mod::lemma_mod_bound(i + s, m);
    assert(i + (-s) == i - s);
}

// ---- Readings -----------------------------------------------------------

/// The bends at vertex `i` that can be measured, from the first scale on.
pub open spec fn readings<P, T, FT: Fn(P, P, P) -> Option<T>>(
    turn: FT,
    pts: Seq<P>,
    closed: bool,
    scales: Seq<usize>,
    i: int,
) -> Seq<T>
    decreases scales.len(),
{
    if scales.len() == 0 {
        seq![]
    } else {
        let before = readings(turn, pts, closed, scales.drop_last(), i);
        match turn_at(turn, pts, closed, i, scales.last() as int) {
            Some(t) => before.push(t),
            None => before,
        }
    }
}

/// How many of the readings are sharp.
pub open spec fn sharp_count<T, FH: Fn(T) -> bool>(sharp: FH, list: Seq<T>) -> int {
    list.filter(|t: T| value1(sharp, t)).len() as int
}

/// What is gathered from the readings, one after the other.
pub open spec fn gathered<S, T, FG: Fn(S, T) -> S>(gather: FG, zero: S, list: Seq<T>) -> S {
    list.fold_left(zero, |s: S, t: T| value2(gather, s, t))
}

proof fn lemma_survey<
    P,
    T,
    S,
    FT: Fn(P, P, P) -> Option<T>,
    FH: Fn(T) -> bool,
    FG: Fn(S, T) -> S,
>(
    turn: FT,
    sharp: FH,
    gather: FG,
    zero: S,
    pts: Seq<P>,
    closed: bool,
    scales: Seq<usize>,
    i: int,
    k: int,
)
    requires
        0 <= k <= scales.len(),
    ensures
        ({
            let list = readings(turn, pts, closed, scales.take(k), i);
            survey_upto(turn, sharp, gather, zero, pts, closed, scales, i, k) == (
                sharp_count(sharp, list),
                list.len() as int,
                gathered(gather, zero, list),
            )
        }),
    decreases k,
{
    reveal(Seq::filter);
    let list = readings(turn, pts, closed, scales.take(k), i);
    if k > 0 {
        lemma_survey(turn, sharp, gather, zero, pts, closed, scales, i, k - 1);
        let before = readings(turn, pts, closed, scales.take(k - 1), i);
        assert(scales.take(k).drop_last() =~= scales.take(k - 1));
        assert(scales.take(k).last() == scales[k - 1]);
        match turn_at(turn, pts, closed, i, scales[k - 1] as int) {
            Some(t) => {
                assert(list == before.push(t));
                assert(list.drop_last() =~= before);
                assert(list.last() == t);
            },
            None => {},
        }
    }
}

/// Vertex `i` turns sharply at enough scales: at least three scales, or all there are,
/// can be measured, and of those a fraction of at least `persistence` billionths is
/// sharp.
pub open spec fn turns_sharply<P, T, FT: Fn(P, P, P) -> Option<T>, FH: Fn(T) -> bool>(
    turn: FT,
    sharp: FH,
    pts: Seq<P>,
    closed: bool,
    scales: Seq<usize>,
    persistence: int,
    i: int,
) -> bool {
    let list = readings(turn, pts, closed, scales, i);
    &&& list.len() > 0
    &&& list.len() >= 3 || list.len() >= scales.len()
    &&& sharp_count(sharp, list) * 1_000_000_000 >= persistence * list.len()
}

proof fn lemma_candidates<
    P,
    T,
    S,
    FT: Fn(P, P, P) -> Option<T>,
    FH: Fn(T) -> bool,
    FG: Fn(S, T) -> S,
>(
    turn: FT,
    sharp: FH,
    gather: FG,
    zero: S,
    pts: Seq<P>,
    closed: bool,
    scales: Seq<usize>,
    persistence: int,
    lo: int,
    hi: int,
    i: int,
)
    requires
        0 <= lo,
        hi <= usize::MAX,
    ensures
        ({
            let at = candidates_upto(
                turn,
                sharp,
                gather,
                zero,
                pts,
                closed,
                scales,
                persistence,
                lo,
                hi,
            );
            &&& (exists|q: int| 0 <= q < at.len() && #[trigger] at[q] == i) <==> (lo <= i < hi
                && turns_sharply(turn, sharp, pts, closed, scales, persistence, i))
            &&& forall|q: int| 0 <= q < at.len() ==> lo <= #[trigger] at[q] < hi
            &&& forall|q: int, r: int|
                0 <= q < r < at.len() ==> #[trigger] at[q] < #[trigger] at[r]
        }),
    decreases hi - lo,
{
    if lo < hi {
        lemma_candidates(
            turn,
            sharp,
            gather,
            zero,
            pts,
            closed,
            scales,
            persistence,
            lo,
            hi - 1,
            i,
        );
        let rest = candidates_upto(
            turn,
            sharp,
            gather,
            zero,
            pts,
            closed,
            scales,
            persistence,
            lo,
            hi - 1,
        );
        let at = candidates_upto(
            turn,
            sharp,
            gather,
            zero,
            pts,
            closed,
            scales,
            persistence,
            lo,
            hi,
        );
        let n = scales.len() as int;
        lemma_survey(turn, sharp, gather, zero, pts, closed, scales, hi - 1, n);
        assert(scales.take(n) =~= scales);
        let list = readings(turn, pts, closed, scales, hi - 1);
        lemma_readings_len(turn, pts, closed, scales, hi - 1);
        assert(persistent(sharp_count(sharp, list), list.len() as int, n, persistence)
            == turns_sharply(turn, sharp, pts, closed, scales, persistence, hi - 1)) by {
            assert(persistence * list.len() == persistence * (list.len() as int));
        }
        if turns_sharply(turn, sharp, pts, closed, scales, persistence, hi - 1) {
            assert(at == rest.push((hi - 1) as usize));
            assert(at[rest.len() as int] == hi - 1);
            if exists|q: int| 0 <= q < rest.len() && #[trigger] rest[q] == i {
                let q = choose|q: int| 0 <= q < rest.len() && #[trigger] rest[q] == i;
                assert(at[q] == i);
            }
            if exists|q: int| 0 <= q < at.len() && #[trigger] at[q] == i {
                let q = choose|q: int| 0 <= q < at.len() && #[trigger] at[q] == i;
                if q < rest.len() {
                    assert(rest[q] == i);
                }
            }
        } else {
            assert(at == rest);
        }
    }
}

proof fn lemma_readings_len<P, T, FT: Fn(P, P, P) -> Option<T>>(
    turn: FT,
    pts: Seq<P>,
    closed: bool,
    scales: Seq<usize>,
    i: int,
)
    ensures
        readings(turn, pts, closed, scales, i).len() <= scales.len(),
    decreases scales.len(),
{
    if scales.len() > 0 {
        lemma_readings_len(turn, pts, closed, scales.drop_last(), i);
    }
}

// ---- Suppression --------------------------------------------------------

/// How far apart two vertices are: on a closed contour of `m` vertices neither way round
/// is shorter than `d`.
pub open spec fn at_least_apart(i: int, j: int, m: int, closed: bool, d: int) -> bool {
    let gap = if i < j {
        j - i
    } else {
        i - j
    };
    gap >= d && (closed ==> m - gap >= d)
}

proof fn lemma_accepted(
    at: Seq<usize>,
    order: Seq<usize>,
    m: int,
    closed: bool,
    radius: int,
    k: int,
)
    requires
        0 <= k <= order.len(),
        radius >= 0,
    ensures
        ({
            let out = accepted_upto(at, order, m, closed, radius, k);
            &&& forall|a: int|
                0 <= a < out.len() ==> exists|c: int|
                    0 <= c < k && #[trigger] at[order[c] as int] == #[trigger] out[a]
            &&& forall|a: int, b: int|
                0 <= a < b < out.len() ==> #[trigger] at_least_apart(
                    out[b] as int,
                    out[a] as int,
                    m,
                    closed,
                    radius + 1,
                )
        }),
    decreases k,
{
    if k > 0 {
        lemma_accepted(at, order, m, closed, radius, k - 1);
        let rest = accepted_upto(at, order, m, closed, radius, k - 1);
        let out = accepted_upto(at, order, m, closed, radius, k);
        let i = at[order[k - 1] as int];
        assert forall|a: int| 0 <= a < out.len() implies exists|c: int|
            0 <= c < k && #[trigger] at[order[c] as int] == #[trigger] out[a] by {
            if a < rest.len() {
                assert(out[a] == rest[a]);
                let c = choose|c: int|
                    0 <= c < k - 1 && #[trigger] at[order[c] as int] == rest[a];
                assert(at[order[c] as int] == out[a]);
            } else {
                assert(at[order[k - 1] as int] == out[a]);
            }
        }
        assert forall|a: int, b: int| 0 <= a < b < out.len() implies #[trigger] at_least_apart(
            out[b] as int,
            out[a] as int,
            m,
            closed,
            radius + 1,
        ) by {
            assert(out[a] == rest[a]);
            if b < rest.len() {
                assert(at_least_apart(rest[b] as int, rest[a] as int, m, closed, radius + 1));
                assert(out[b] == rest[b]);
            } else {
                assert(out[b] == i);
                assert(!clashes(rest, i, m, closed, radius));
                assert(vertex_distance(i as int, rest[a] as int, m, closed) > radius);
            }
        }
    }
}

/// A candidate that was looked at is taken, or one looked at before it stands in its way.
proof fn lemma_in_the_way(
    at: Seq<usize>,
    order: Seq<usize>,
    m: int,
    closed: bool,
    radius: int,
    k: int,
    l: int,
) -> (c: int)
    requires
        0 <= l < k <= order.len(),
        radius >= 0,
    ensures
        0 <= c <= l,
        accepted_upto(at, order, m, closed, radius, k).contains(at[order[c] as int]),
        at[order[c] as int] == at[order[l] as int] || !at_least_apart(
            at[order[l] as int] as int,
            at[order[c] as int] as int,
            m,
            closed,
            radius + 1,
        ),
    decreases k,
{
    let out = accepted_upto(at, order, m, closed, radius, k);
    let rest = accepted_upto(at, order, m, closed, radius, k - 1);
    if l < k - 1 {
        let c = lemma_in_the_way(at, order, m, closed, radius, k - 1, l);
        let v = at[order[c] as int];
        let a = choose|a: int| 0 <= a < rest.len() && rest[a] == v;
        assert(out[a] == v);
        c
    } else {
        let i = at[order[l] as int];
        if clashes(rest, i, m, closed, radius) {
            let a = choose|a: int|
                0 <= a < rest.len() && vertex_distance(
                    i as int,
                    #[trigger] rest[a] as int,
                    m,
                    closed,
                ) <= radius;
            lemma_accepted(at, order, m, closed, radius, k - 1);
            let c = choose|c: int| 0 <= c < k - 1 && #[trigger] at[order[c] as int] == rest[a];
            assert(out[a] == rest[a]);
            c
        } else {
            assert(out[rest.len() as int] == i);
            l
        }
    }
}

/// Suppression keeps only candidates, no two of them within the radius of each other, and
/// for each candidate it keeps one that is at least as strong: the candidate itself, or
/// one within the radius.
pub proof fn law_the_strongest_candidate_stays(
    at: Seq<usize>,
    strength: Seq<i64>,
    m: int,
    closed: bool,
    radius: int,
    accepted: Seq<usize>,
    q: int,
) -> (c: int)
    requires
        is_suppressed(at, strength, m, closed, radius, accepted),
        radius >= 0,
        at.len() == strength.len(),
        at.len() <= usize::MAX,
        0 <= q < at.len(),
    ensures
        0 <= c < at.len(),
        accepted.contains(at[c]),
        strength[c] >= strength[q],
        at[c] == at[q] || !at_least_apart(at[q] as int, at[c] as int, m, closed, radius + 1),
        forall|a: int|
            0 <= a < accepted.len() ==> exists|d: int|
                0 <= d < at.len() && #[trigger] at[d] == #[trigger] accepted[a],
        forall|a: int, b: int|
            0 <= a < b < accepted.len() ==> #[trigger] at_least_apart(
                accepted[b] as int,
                accepted[a] as int,
                m,
                closed,
                radius + 1,
            ),
{
    let keys = strength_keys(strength);
    let order = choose|order: Seq<usize>| #[trigger]
        is_stable_order(keys, order) && accepted == accepted_upto(
            at,
            order,
            m,
            closed,
            radius,
            order.len() as int,
        );
    let n = order.len() as int;
    lemma_accepted(at, order, m, closed, radius, n);
    assert(order.contains(q as usize));
    let l = choose|l: int| 0 <= l < order.len() && order[l] == q;
    let c = lemma_in_the_way(at, order, m, closed, radius, n, l);
    if c < l {
        assert(sorts_before(keys, order[c], order[l]));
    }
    assert forall|a: int| 0 <= a < accepted.len() implies exists|d: int|
        0 <= d < at.len() && #[trigger] at[d] == #[trigger] accepted[a] by {
        let e = choose|e: int| 0 <= e < n && #[trigger] at[order[e] as int] == accepted[a];
        assert(at[order[e] as int] == accepted[a]);
    }
    order[c] as int
}

// ---- Corners ------------------------------------------------------------

/// The vertices that may become corners: the inner ones of an open contour, all of a closed
/// one but the repeated last.
pub open spec fn may_be_corner(i: int, n: int, closed: bool) -> bool {
    i < n - 1 && (if closed {
        0 <= i
    } else {
        0 < i
    })
}

/// Every corner but the ends of an open contour turns sharply at enough of the scales
/// asked for, and the ends of an open contour are corners.
pub proof fn law_corners_turn_sharply<
    P,
    T,
    S,
    E,
    FT: Fn(P, P, P) -> Option<T>,
    FH: Fn(T) -> bool,
    FG: Fn(S, T) -> S,
    FK: Fn(S, usize) -> i64,
    FJ: Fn(E, T, T) -> E,
>(
    turn: FT,
    sharp: FH,
    gather: FG,
    strength: FK,
    jitter: FJ,
    zero: S,
    calm: E,
    pts: Seq<P>,
    closed: bool,
    cfg: CornerConfig,
    a: Analysis<E>,
) -> (scales: Seq<usize>)
    requires
        is_contour_analysis(
            turn,
            sharp,
            gather,
            strength,
            jitter,
            zero,
            calm,
            pts,
            closed,
            cfg,
            a,
        ),
        3 <= (if closed {
            pts.len() - 1
        } else {
            pts.len() as int
        }),
        pts.len() <= usize::MAX,
    ensures
        are_effective_scales(cfg.scales@, scales),
        !closed ==> a.corners@.contains(0) && a.corners@.contains((pts.len() - 1) as usize),
        forall|i: usize| #[trigger]
            a.corners@.contains(i) ==> (!closed && (i == 0 || i == pts.len() - 1)) || (
            may_be_corner(i as int, pts.len() as int, closed) && turns_sharply(
                turn,
                sharp,
                pts,
                closed,
                scales,
                cfg.persistence as int,
                i as int,
            )),
{
    let n = pts.len() as int;
    let scales = choose|scales: Seq<usize>| #[trigger]
        is_analysis(turn, sharp, gather, strength, jitter, zero, calm, pts, closed, cfg, scales, a);
    let (lo, hi) = corner_range(n, closed);
    let at = candidates_upto(
        turn,
        sharp,
        gather,
        zero,
        pts,
        closed,
        scales,
        cfg.persistence as int,
        lo,
        hi,
    );
    let list = strengths_of(turn, sharp, gather, strength, zero, pts, closed, scales, at);
    let m = distinct_vertices(n, closed);
    let radius = cfg.suppress_radius as int;
    let accepted = choose|accepted: Seq<usize>| #[trigger]
        is_suppressed(at, list, m, closed, radius, accepted) && are_corners(
            a.corners@,
            n,
            closed,
            accepted,
        );
    assert forall|i: usize| #[trigger] a.corners@.contains(i) implies (!closed && (i == 0 || i == n
        - 1)) || (may_be_corner(i as int, n, closed) && turns_sharply(
        turn,
        sharp,
        pts,
        closed,
        scales,
        cfg.persistence as int,
        i as int,
    )) by {
        if closed || (i != 0 && i != n - 1) {
            assert(accepted.contains(i));
            let k = choose|k: int| 0 <= k < accepted.len() && accepted[k] == i;
            let order = choose|order: Seq<usize>| #[trigger]
                is_stable_order(strength_keys(list), order) && accepted == accepted_upto(
                    at,
                    order,
                    m,
                    closed,
                    radius,
                    order.len() as int,
                );
            lemma_accepted(at, order, m, closed, radius, order.len() as int);
            let e = choose|e: int|
                0 <= e < order.len() && #[trigger] at[order[e] as int] == accepted[k];
            lemma_candidates(
                turn,
                sharp,
                gather,
                zero,
                pts,
                closed,
                scales,
                cfg.persistence as int,
                lo,
                hi,
                i as int,
            );
            assert(at[order[e] as int] == i);
        }
    }
    scales
}

/// Every vertex that turns sharply at enough scales is a corner, or a corner that turns at
/// least as strongly lies within the suppression radius.
pub proof fn law_sharp_vertices_become_corners<
    P,
    T,
    S,
    E,
    FT: Fn(P, P, P) -> Option<T>,
    FH: Fn(T) -> bool,
    FG: Fn(S, T) -> S,
    FK: Fn(S, usize) -> i64,
    FJ: Fn(E, T, T) -> E,
>(
    turn: FT,
    sharp: FH,
    gather: FG,
    strength: FK,
    jitter: FJ,
    zero: S,
    calm: E,
    pts: Seq<P>,
    closed: bool,
    cfg: CornerConfig,
    scales: Seq<usize>,
    a: Analysis<E>,
    i: usize,
) -> (c: usize)
    requires
        is_analysis(turn, sharp, gather, strength, jitter, zero, calm, pts, closed, cfg, scales, a),
        1 <= pts.len() <= usize::MAX,
        may_be_corner(i as int, pts.len() as int, closed),
        turns_sharply(turn, sharp, pts, closed, scales, cfg.persistence as int, i as int),
    ensures
        a.corners@.contains(c),
        c == i || !at_least_apart(
            i as int,
            c as int,
            if closed {
                pts.len() - 1
            } else {
                pts.len() as int
            },
            closed,
            cfg.suppress_radius + 1,
        ),
        ({
            let here = readings(turn, pts, closed, scales, i as int);
            let there = readings(turn, pts, closed, scales, c as int);
            value2(strength, gathered(gather, zero, there), there.len() as usize) >= value2(
                strength,
                gathered(gather, zero, here),
                here.len() as usize,
            )
        }),
{
    let n = pts.len() as int;
    let (lo, hi) = corner_range(n, closed);
    let at = candidates_upto(
        turn,
        sharp,
        gather,
        zero,
        pts,
        closed,
        scales,
        cfg.persistence as int,
        lo,
        hi,
    );
    let list = strengths_of(turn, sharp, gather, strength, zero, pts, closed, scales, at);
    let m = distinct_vertices(n, closed);
    let radius = cfg.suppress_radius as int;
    let accepted = choose|accepted: Seq<usize>| #[trigger]
        is_suppressed(at, list, m, closed, radius, accepted) && are_corners(
            a.corners@,
            n,
            closed,
            accepted,
        );
    lemma_candidates(
        turn,
        sharp,
        gather,
        zero,
        pts,
        closed,
        scales,
        cfg.persistence as int,
        lo,
        hi,
        i as int,
    );
    let q = choose|q: int| 0 <= q < at.len() && #[trigger] at[q] == i;
    lemma_ascending_count(at, hi);
    let e = law_the_strongest_candidate_stays(at, list, m, closed, radius, accepted, q);
    let c = at[e];
    let k = scales.len() as int;
    lemma_survey(turn, sharp, gather, zero, pts, closed, scales, i as int, k);
    lemma_survey(turn, sharp, gather, zero, pts, closed, scales, c as int, k);
    assert(scales.take(k) =~= scales);
    assert(list[q] == value2(
        strength,
        gathered(gather, zero, readings(turn, pts, closed, scales, i as int)),
        readings(turn, pts, closed, scales, i as int).len() as usize,
    ));
    assert(accepted.contains(c));
    c
}

proof fn lemma_ascending_count(at: Seq<usize>, hi: int)
    requires
        forall|q: int| 0 <= q < at.len() ==> 0 <= #[trigger] at[q] < hi,
        forall|q: int, r: int| 0 <= q < r < at.len() ==> #[trigger] at[q] < #[trigger] at[r],
        hi <= usize::MAX,
    ensures
        at.len() <= usize::MAX,
{
    if at.len() > 0 {
        lemma_climbs(at, at.len() - 1);
        assert(at[at.len() - 1] < hi);
    }
}

proof fn lemma_climbs(at: Seq<usize>, k: int)
    requires
        0 <= k < at.len(),
        forall|q: int, r: int| 0 <= q < r < at.len() ==> #[trigger] at[q] < #[trigger] at[r],
    ensures
        at[k] >= k,
    decreases k,
{
    if k > 0 {
        lemma_climbs(at, k - 1);
        assert(at[k - 1] < at[k]);
    }
}

// ---- Noise --------------------------------------------------------------

/// The bends at one step and over the coarsest scale of the vertices where both can be
/// measured, from the first vertex on.
pub open spec fn bend_pairs<P, T, FT: Fn(P, P, P) -> Option<T>>(
    turn: FT,
    pts: Seq<P>,
    closed: bool,
    coarsest: int,
    n: int,
) -> Seq<(T, T)>
    decreases n,
{
    if n <= 0 {
        seq![]
    } else {
        let before = bend_pairs(turn, pts, closed, coarsest, n - 1);
        let i = n - 1;
        let fine = turn_at(turn, pts, closed, i, 1);
        let coarse = turn_at(turn, pts, closed, i, coarsest);
        if may_be_corner(i, pts.len() as int, closed) && fine is Some && coarse is Some {
            before.push((fine->Some_0, coarse->Some_0))
        } else {
            before
        }
    }
}

proof fn lemma_noise<P, T, E, FT: Fn(P, P, P) -> Option<T>, FJ: Fn(E, T, T) -> E>(
    turn: FT,
    jitter: FJ,
    calm: E,
    pts: Seq<P>,
    closed: bool,
    coarsest: int,
    hi: int,
)
    requires
        0 <= hi < pts.len(),
    ensures
        ({
            let lo = corner_range(pts.len() as int, closed).0;
            let pairs = bend_pairs(turn, pts, closed, coarsest, hi);
            noise_upto(turn, jitter, calm, pts, closed, coarsest, lo, hi) == (
                pairs.fold_left(calm, |e: E, t: (T, T)| value3(jitter, e, t.0, t.1)),
                pairs.len() as int,
            )
        }),
    decreases hi,
{
    let lo = corner_range(pts.len() as int, closed).0;
    let pairs = bend_pairs(turn, pts, closed, coarsest, hi);
    if hi > 0 {
        lemma_noise(turn, jitter, calm, pts, closed, coarsest, hi - 1);
        let before = bend_pairs(turn, pts, closed, coarsest, hi - 1);
        if pairs.len() > before.len() {
            assert(pairs.drop_last() =~= before);
        }
    }
}

/// The noise of a contour is gathered from the bends that vanish: at each vertex that may
/// become a corner, the bend at one step against the one over the largest of the scales.
pub proof fn law_noise_is_what_vanishes<
    P,
    T,
    S,
    E,
    FT: Fn(P, P, P) -> Option<T>,
    FH: Fn(T) -> bool,
    FG: Fn(S, T) -> S,
    FK: Fn(S, usize) -> i64,
    FJ: Fn(E, T, T) -> E,
>(
    turn: FT,
    sharp: FH,
    gather: FG,
    strength: FK,
    jitter: FJ,
    zero: S,
    calm: E,
    pts: Seq<P>,
    closed: bool,
    cfg: CornerConfig,
    scales: Seq<usize>,
    a: Analysis<E>,
)
    requires
        is_analysis(turn, sharp, gather, strength, jitter, zero, calm, pts, closed, cfg, scales, a),
        pts.len() >= 1,
    ensures
        ({
            let pairs = bend_pairs(turn, pts, closed, scales.last() as int, pts.len() - 1);
            &&& forall|k: int| 0 <= k < scales.len() ==> #[trigger] scales[k] <= scales.last()
            &&& a.measured == pairs.len()
            &&& a.noise == pairs.fold_left(
                calm,
                |e: E, t: (T, T)| value3(jitter, e, t.0, t.1),
            )
        }),
{
    lemma_noise(turn, jitter, calm, pts, closed, scales.last() as int, pts.len() - 1);
}

// ---- Scales -------------------------------------------------------------

/// Every scale asked for that is at least one step is looked at, as often as it is asked
/// for, and no other, from the smallest on; one step where none was asked for.
pub proof fn law_scales_are_those_asked_for(scales: Seq<usize>, out: Seq<usize>, s: usize)
    requires
        are_effective_scales(scales, out),
    ensures
        s >= 1 && scales.contains(s) ==> out.contains(s),
        out.contains(s) ==> s >= 1 && (scales.contains(s) || out == seq![1usize]),
        (forall|k: int| 0 <= k < scales.len() ==> #[trigger] scales[k] == 0) ==> out == seq![1usize],
        (forall|k: int| 0 <= k < scales.len() ==> #[trigger] scales[k] >= 1)
            && scales.len() > 0 ==> out.len() == scales.len(),
{
    let keep = |s: usize| s >= 1;
    let positive = scales.filter(keep);
    broadcast use vstd::seq_lib::group_seq_properties;
    broadcast use vstd::seq_lib::group_to_multiset_ensures;

    lemma_filtered(scales, s);
    if positive.len() > 0 {
        assert(out.contains(s) <==> out.to_multiset().contains(s));
        assert(positive.contains(s) <==> positive.to_multiset().contains(s));
        assert(out.len() == out.to_multiset().len());
        assert(positive.len() == positive.to_multiset().len());
    } else if out.contains(s) {
        let k = choose|k: int| 0 <= k < out.len() && out[k] == s;
        assert(out == seq![1usize]);
        assert(k == 0);
    }
}

proof fn lemma_filtered(scales: Seq<usize>, s: usize)
    ensures
        scales.filter(|s: usize| s >= 1).contains(s) <==> s >= 1 && scales.contains(s),
        (forall|k: int| 0 <= k < scales.len() ==> #[trigger] scales[k] == 0) ==> scales.filter(
            |s: usize| s >= 1,
        ).len() == 0,
        (forall|k: int| 0 <= k < scales.len() ==> #[trigger] scales[k] >= 1) ==> scales.filter(
            |s: usize| s >= 1,
        ).len() == scales.len(),
    decreases scales.len(),
{
    reveal(Seq::filter);
    let keep = |s: usize| s >= 1;
    if scales.len() > 0 {
        let rest = scales.drop_last();
        let x = scales.last();
        lemma_filtered(rest, s);
        let before = rest.filter(keep);
        let now = scales.filter(keep);
        if x >= 1 {
            assert(now == before.push(x));
            if before.contains(s) {
                let k = choose|k: int| 0 <= k < before.len() && before[k] == s;
                assert(now[k] == s);
            }
            if x == s {
                assert(now[before.len() as int] == s);
            }
            if now.contains(s) && x != s {
                let k = choose|k: int| 0 <= k < now.len() && now[k] == s;
                assert(before[k] == s);
            }
        } else {
            assert(now == before);
        }
        if scales.contains(s) && x != s {
            let k = choose|k: int| 0 <= k < scales.len() && scales[k] == s;
            assert(rest[k] == s);
        }
        if rest.contains(s) {
            let k = choose|k: int| 0 <= k < rest.len() && rest[k] == s;
            assert(scales[k] == s);
        }
        assert(scales[scales.len() - 1] == x);
        if forall|k: int| 0 <= k < scales.len() ==> #[trigger] scales[k] == 0 {
            assert forall|k: int| 0 <= k < rest.len() implies #[trigger] rest[k] == 0 by {
                assert(scales[k] == 0);
            }
        }
        if forall|k: int| 0 <= k < scales.len() ==> #[trigger] scales[k] >= 1 {
            assert forall|k: int| 0 <= k < rest.len() implies #[trigger] rest[k] >= 1 by {
                assert(scales[k] >= 1);
            }
        }
    }
}

// ---- Arcs ---------------------------------------------------------------

/// An arc along the image edge keeps its inner points, and its ends are its corners. Any
/// other arc of three or more points is smoothed between the corners that analysis found,
/// with as many passes as its own noise asks for, or, where the noise is not asked, as
/// many as are meant for none.
pub proof fn law_arcs_are_smoothed_for_their_noise<
    P,
    T,
    S,
    E,
    FT: Fn(P, P, P) -> Option<T>,
    FH: Fn(T) -> bool,
    FG: Fn(S, T) -> S,
    FK: Fn(S, usize) -> i64,
    FJ: Fn(E, T, T) -> E,
    FX: Fn(P, P, P, bool) -> P,
    FP: Fn(Option<(E, usize)>) -> usize,
>(
    turn: FT,
    sharp: FH,
    gather: FG,
    strength: FK,
    jitter: FJ,
    relax: FX,
    effort: FP,
    zero: S,
    calm: E,
    cfg: CornerConfig,
    a: Arc<P>,
    b: Arc<P>,
    k: int,
) -> (an: Analysis<E>)
    requires
        is_analyzed(
            turn,
            sharp,
            gather,
            strength,
            jitter,
            relax,
            effort,
            zero,
            calm,
            cfg,
            a,
            b,
        ),
        0 < k < a.points@.len() - 1,
    ensures
        a.on_border ==> b.points@[k] == a.points@[k] && b.corners@ == seq![
            0usize,
            (a.points@.len() - 1) as usize,
        ],
        !a.on_border ==> ({
            let passes = value1(
                effort,
                if cfg.noise_adaptive {
                    Some((an.noise, an.measured))
                } else {
                    None
                },
            );
            &&& is_contour_analysis(
                turn,
                sharp,
                gather,
                strength,
                jitter,
                zero,
                calm,
                a.points@,
                a.loop_arc,
                cfg,
                an,
            )
            &&& b.corners@ == an.corners@
            &&& passes == 0 ==> b.points@[k] == a.points@[k]
            &&& passes > 0 ==> b.points@[k] == contour_smoothed(
                relax,
                a.points@,
                b.corners@,
                a.loop_arc,
                passes as int,
            )[k]
        }),
{
    choose|an: Analysis<E>| #[trigger]
        is_contour_analysis(
            turn,
            sharp,
            gather,
            strength,
            jitter,
            zero,
            calm,
            a.points@,
            a.loop_arc,
            cfg,
            an,
        ) && b.corners@ == an.corners@ && same_inside(
            denoised(relax, effort, a.points@, a.loop_arc, cfg, an),
            b.points@,
        )
}

} // verus!
