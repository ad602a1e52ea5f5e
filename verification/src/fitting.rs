//! Primitive fitting: turning a refined contour into the fewest curve commands
//! that still hold it within tolerance.
//!
//! The fitter is greedy about span length and cheap about primitives. For each
//! run between corners it tries, in ascending order of cost, a straight line, a
//! single cubic Bezier and a circular arc, and only splits the run when none of
//! those fit. Because the widest span is always attempted first, the result is
//! close to the minimum number of primitives for the given tolerance.
//!
//! The numerical work is done by callbacks. `P` is the type of a position, `S`
//! that of a length, and `T` that of a tangent.

use crate::config::FitConfig;
use crate::order::{ascending, lemma_ascending_ends, marked_indices};
use crate::path::{seg_end, seg_ending, Seg};
use crate::pure::{
    call1, call2, call3, call4, pure1, pure2, pure3, pure4, value1, value2, value3, value4,
};
use vstd::prelude::*;

verus! {

/// Up to this many cubics stand for one circular arc, each spanning at most a
/// quarter turn.
pub const MAX_ARC_CUBICS: usize = 4;

/// The cubics of the arc fitted to a span, from the `k`th on.
pub open spec fn arc_cubics<P, S, K: Fn(usize, usize, usize) -> Option<(P, P, P)>>(
    piece: K,
    i0: usize,
    i1: usize,
    k: usize,
) -> Seq<Seg<P, S>>
    decreases MAX_ARC_CUBICS - k,
{
    if k >= MAX_ARC_CUBICS {
        Seq::empty()
    } else {
        match value3(piece, i0, i1, k) {
            Some((c1, c2, to)) => seq![Seg::Cubic { c1, c2, to }] + arc_cubics(
                piece,
                i0,
                i1,
                (k + 1) as usize,
            ),
            None => Seq::empty(),
        }
    }
}

/// Straight lines through the points after `i0`, up to `i1`.
pub open spec fn polyline<P, S>(pts: Seq<P>, i0: int, i1: int) -> Seq<Seg<P, S>> {
    Seq::new((i1 - i0) as nat, |k: int| Seg::Line { to: pts[i0 + 1 + k] })
}

/// Where a run is split: at its worst sample, but with at least one interior
/// point on each side.
pub open spec fn split_at(i0: int, i1: int, worst: int) -> int {
    if worst < 1 {
        i0 + 1
    } else if worst > i1 - 1 - i0 {
        i1 - 1
    } else {
        i0 + worst
    }
}

/// The commands for the run from point `i0` to point `i1`.
///
/// `line` says whether every point of a span is within tolerance of its chord,
/// `cubic` gives the handles of a cubic that holds the span, `arc` the radius
/// and flags of a circular arc that does and `piece` the cubics that draw it,
/// `worst` the sample at which the cubic strays furthest, and `centre` the two
/// tangents at a split, the arriving one first.
pub open spec fn run_segs<
    P,
    S,
    T,
    L: Fn(usize, usize) -> bool,
    C: Fn(usize, usize, T, T) -> Option<(P, P)>,
    A: Fn(usize, usize) -> Option<(S, bool, bool)>,
    K: Fn(usize, usize, usize) -> Option<(P, P, P)>,
    W: Fn(usize, usize, T, T) -> usize,
    M: Fn(usize) -> (T, T),
>(
    line: L,
    cubic: C,
    arc: A,
    piece: K,
    worst: W,
    centre: M,
    pts: Seq<P>,
    cfg: FitConfig,
    i0: usize,
    i1: usize,
    left: T,
    right: T,
    depth: int,
) -> Seq<Seg<P, S>>
    decreases i1 - i0,
{
    if i1 <= i0 {
        Seq::empty()
    } else if i1 - i0 == 1 || (cfg.allow_lines && value2(line, i0, i1)) {
        seq![Seg::Line { to: pts[i1 as int] }]
    } else if value4(cubic, i0, i1, left, right) is Some {
        let (c1, c2) = value4(cubic, i0, i1, left, right)->0;
        seq![Seg::Cubic { c1, c2, to: pts[i1 as int] }]
    } else if cfg.allow_arcs && value2(arc, i0, i1) is Some {
        let (r, large, sweep) = value2(arc, i0, i1)->0;
        if cfg.emit_true_arcs {
            seq![Seg::Arc { r, large, sweep, to: pts[i1 as int] }]
        } else {
            arc_cubics(piece, i0, i1, 0)
        }
    } else if depth >= cfg.max_depth {
        polyline(pts, i0 as int, i1 as int)
    } else {
        let at = split_at(
            i0 as int,
            i1 as int,
            value4(worst, i0, i1, left, right) as int,
        ) as usize;
        let (arrive, leave) = value1(centre, at);
        if i0 < at < i1 {
            run_segs(
                line,
                cubic,
                arc,
                piece,
                worst,
                centre,
                pts,
                cfg,
                i0,
                at,
                left,
                arrive,
                depth + 1,
            ) + run_segs(
                line,
                cubic,
                arc,
                piece,
                worst,
                centre,
                pts,
                cfg,
                at,
                i1,
                leave,
                right,
                depth + 1,
            )
        } else {
            Seq::empty()
        }
    }
}

/// Append the cubics of the arc fitted to a span.
fn push_arc_cubics<P: Copy, S: Copy, K: Fn(usize, usize, usize) -> Option<(P, P, P)>>(
    piece: &K,
    i0: usize,
    i1: usize,
    k: usize,
    out: &mut Vec<Seg<P, S>>,
)
    requires
        pure3(*piece),
    ensures
        final(out)@ == old(out)@ + arc_cubics(*piece, i0, i1, k),
    decreases MAX_ARC_CUBICS - k,
{
    let ghost o0 = out@;
    if k >= MAX_ARC_CUBICS {
        assert(o0 + Seq::<Seg<P, S>>::empty() =~= o0);
        return;
    }
    match call3(piece, i0, i1, k) {
        Some((c1, c2, to)) => {
            out.push(Seg::Cubic { c1, c2, to });
            let ghost o1 = out@;
            push_arc_cubics(piece, i0, i1, k + 1, out);
            proof {
                let rest = arc_cubics::<P, S, K>(*piece, i0, i1, (k + 1) as usize);
                let head: Seq<Seg<P, S>> = seq![Seg::Cubic { c1, c2, to }];
                assert(o1 =~= o0 + head);
                assert((o0 + head) + rest =~= o0 + (head + rest));
            }
        },
        None => {
            assert(o0 + Seq::<Seg<P, S>>::empty() =~= o0);
        },
    }
}

/// Fit the run from point `i0` to point `i1`, appending commands to `out`. See
/// [`run_segs`] for the callbacks.
#[verifier::rlimit(30)]
pub fn fit_run<
    P: Copy,
    S: Copy,
    T: Copy,
    L: Fn(usize, usize) -> bool,
    C: Fn(usize, usize, T, T) -> Option<(P, P)>,
    A: Fn(usize, usize) -> Option<(S, bool, bool)>,
    K: Fn(usize, usize, usize) -> Option<(P, P, P)>,
    W: Fn(usize, usize, T, T) -> usize,
    M: Fn(usize) -> (T, T),
>(
    line: &L,
    cubic: &C,
    arc: &A,
    piece: &K,
    worst: &W,
    centre: &M,
    pts: &Vec<P>,
    cfg: &FitConfig,
    i0: usize,
    i1: usize,
    left: T,
    right: T,
    depth: usize,
    out: &mut Vec<Seg<P, S>>,
)
    requires
        pure2(*line),
        pure4(*cubic),
        pure2(*arc),
        pure3(*piece),
        pure4(*worst),
        pure1(*centre),
        i1 < pts@.len(),
        i0 <= i1,
    ensures
        final(out)@ == old(out)@ + run_segs(
            *line,
            *cubic,
            *arc,
            *piece,
            *worst,
            *centre,
            pts@,
            *cfg,
            i0,
            i1,
            left,
            right,
            depth as int,
        ),
    decreases i1 - i0,
{
    let ghost o0 = out@;
    if i1 == i0 {
        assert(o0 + Seq::<Seg<P, S>>::empty() =~= o0);
        return;
    }
    let end: P = pts[i1];
    // 1. Straight line: the cheapest possible answer.
    if i1 - i0 == 1 || (cfg.allow_lines && call2(line, i0, i1)) {
        out.push(Seg::Line { to: end });
        assert(out@ =~= o0 + seq![Seg::Line { to: end }]);
        return;
    }
    // 2. One cubic.
    match call4(cubic, i0, i1, left, right) {
        Some((c1, c2)) => {
            out.push(Seg::Cubic { c1, c2, to: end });
            assert(out@ =~= o0 + seq![Seg::Cubic { c1, c2, to: end }]);
            return;
        },
        None => {},
    }
    // 3. A circular arc, which can hold a far wider sweep than one cubic.
    if cfg.allow_arcs {
        match call2(arc, i0, i1) {
            Some((r, large, sweep)) => {
                if cfg.emit_true_arcs {
                    out.push(Seg::Arc { r, large, sweep, to: end });
                    assert(out@ =~= o0 + seq![Seg::Arc { r, large, sweep, to: end }]);
                } else {
                    push_arc_cubics(piece, i0, i1, 0, out);
                }
                return;
            },
            None => {},
        }
    }
    // 4. Split at the worst point and fit both halves, keeping the tangent
    // continuous across the join so the split does not become a visible kink.
    if depth >= cfg.max_depth {
        let n: usize = pts.len();
        let mut k: usize = i0 + 1;
        assert(o0 + polyline::<P, S>(pts@, i0 as int, i0 as int) =~= o0);
        while k <= i1
            invariant
                i0 < k <= i1 + 1,
                i1 < n,
                n == pts@.len(),
                out@ == o0 + polyline::<P, S>(pts@, i0 as int, k - 1),
            decreases i1 + 1 - k,
        {
            out.push(Seg::Line { to: pts[k] });
            assert(out@ =~= o0 + polyline::<P, S>(pts@, i0 as int, k as int));
            k = k + 1;
        }
        return;
    }
    let w: usize = call4(worst, i0, i1, left, right);
    let at: usize = if w < 1 {
        i0 + 1
    } else if w > i1 - 1 - i0 {
        i1 - 1
    } else {
        i0 + w
    };
    let (arrive, leave) = call1(centre, at);
    fit_run(line, cubic, arc, piece, worst, centre, pts, cfg, i0, at, left, arrive, depth + 1, out);
    let ghost o1 = out@;
    fit_run(line, cubic, arc, piece, worst, centre, pts, cfg, at, i1, leave, right, depth + 1, out);
    proof {
        let a = run_segs::<P, S, T, L, C, A, K, W, M>(
            *line,
            *cubic,
            *arc,
            *piece,
            *worst,
            *centre,
            pts@,
            *cfg,
            i0,
            at,
            left,
            arrive,
            depth + 1,
        );
        let b = run_segs::<P, S, T, L, C, A, K, W, M>(
            *line,
            *cubic,
            *arc,
            *piece,
            *worst,
            *centre,
            pts@,
            *cfg,
            at,
            i1,
            leave,
            right,
            depth + 1,
        );
        assert((o0 + a) + b =~= o0 + (a + b));
    }
}

/// Where arcs are drawn with cubics, those of every arc that was fitted end at
/// the last point of its span.
pub open spec fn arcs_reach<
    P,
    S,
    A: Fn(usize, usize) -> Option<(S, bool, bool)>,
    K: Fn(usize, usize, usize) -> Option<(P, P, P)>,
>(arc: A, piece: K, pts: Seq<P>, cfg: FitConfig) -> bool {
    cfg.allow_arcs && !cfg.emit_true_arcs ==> forall|a: usize, b: usize|
        a < b < pts.len() && #[trigger] value2(arc, a, b) is Some ==> {
            let cubics = arc_cubics::<P, S, K>(piece, a, b, 0);
            cubics.len() > 0 && seg_end(cubics.last()) == pts[b as int]
        }
}

/// Whatever the tolerance, the commands for a run end at its last point, as long
/// as the cubics that stand for an arc do.
pub proof fn law_run_reaches_its_end<
    P,
    S,
    T,
    L: Fn(usize, usize) -> bool,
    C: Fn(usize, usize, T, T) -> Option<(P, P)>,
    A: Fn(usize, usize) -> Option<(S, bool, bool)>,
    K: Fn(usize, usize, usize) -> Option<(P, P, P)>,
    W: Fn(usize, usize, T, T) -> usize,
    M: Fn(usize) -> (T, T),
>(
    line: L,
    cubic: C,
    arc: A,
    piece: K,
    worst: W,
    centre: M,
    pts: Seq<P>,
    cfg: FitConfig,
    i0: usize,
    i1: usize,
    left: T,
    right: T,
    depth: int,
)
    requires
        i0 < i1 < pts.len(),
        arcs_reach(arc, piece, pts, cfg),
    ensures
        ({
            let segs = run_segs::<P, S, T, L, C, A, K, W, M>(
                line,
                cubic,
                arc,
                piece,
                worst,
                centre,
                pts,
                cfg,
                i0,
                i1,
                left,
                right,
                depth,
            );
            segs.len() > 0 && seg_end(segs.last()) == pts[i1 as int]
        }),
    decreases i1 - i0,
{
    let w = value4(worst, i0, i1, left, right) as int;
    if i1 - i0 > 1 {
        let at = split_at(i0 as int, i1 as int, w) as usize;
        let (arrive, leave) = value1(centre, at);
        law_run_reaches_its_end::<P, S, T, L, C, A, K, W, M>(
            line,
            cubic,
            arc,
            piece,
            worst,
            centre,
            pts,
            cfg,
            i0,
            at,
            left,
            arrive,
            depth + 1,
        );
        law_run_reaches_its_end::<P, S, T, L, C, A, K, W, M>(
            line,
            cubic,
            arc,
            piece,
            worst,
            centre,
            pts,
            cfg,
            at,
            i1,
            leave,
            right,
            depth + 1,
        );
    }
}

// ---- Contours -----------------------------------------------------------

/// `i` is one of the corners.
pub open spec fn is_corner(corners: Seq<usize>, i: usize) -> bool {
    corners.contains(i)
}

/// `breaks` lists, in ascending order, the first and last of `n` points and the
/// corners between them.
pub open spec fn are_breaks(breaks: Seq<usize>, corners: Seq<usize>, n: int) -> bool {
    &&& ascending(breaks)
    &&& forall|k: int| 0 <= k < breaks.len() ==> (#[trigger] breaks[k]) < n
    &&& forall|i: usize|
        #[trigger] breaks.contains(i) <==> i < n && (i == 0 || i == n - 1 || is_corner(corners, i))
}

/// None of the corners is among `n` points.
pub open spec fn no_corner_within(corners: Seq<usize>, n: int) -> bool {
    forall|k: int| 0 <= k < corners.len() ==> (#[trigger] corners[k]) >= n
}

/// The points at which a contour of `n` points is split.
pub fn contour_breaks(corners: &Vec<usize>, n: usize) -> (breaks: Vec<usize>)
    requires
        n >= 2,
    ensures
        are_breaks(breaks@, corners@, n as int),
        breaks@.len() >= 2,
        breaks@[0] == 0,
        breaks@.last() == n - 1,
{
    let mut marked: Vec<bool> = Vec::new();
    let mut i: usize = 0;
    while i < n
        invariant
            i <= n,
            n >= 2,
            marked@.len() == i,
            forall|j: int| 0 <= j < i ==> #[trigger] marked@[j] == (j == 0 || j == n - 1),
        decreases n - i,
    {
        marked.push(i == 0 || i == n - 1);
        i = i + 1;
    }
    let mut k: usize = 0;
    while k < corners.len()
        invariant
            k <= corners@.len(),
            marked@.len() == n,
            forall|j: int|
                0 <= j < n ==> #[trigger] marked@[j] == (j == 0 || j == n - 1
                    || corners@.take(k as int).contains(j as usize)),
        decreases corners@.len() - k,
    {
        let c: usize = corners[k];
        let ghost before = marked@;
        if c < n {
            marked.set(c, true);
        }
        proof {
            let t = corners@.take(k + 1);
            assert(t =~= corners@.take(k as int).push(c));
            assert forall|j: int| 0 <= j < n implies #[trigger] marked@[j] == (j == 0 || j == n - 1
                || t.contains(j as usize)) by {
                let before_has = corners@.take(k as int).contains(j as usize);
                assert(before[j] == (j == 0 || j == n - 1 || before_has));
                if before_has {
                    let q = choose|q: int|
                        0 <= q < corners@.take(k as int).len() && corners@.take(k as int)[q]
                            == j as usize;
                    assert(t[q] == j as usize);
                }
                if j == c {
                    assert(t[k as int] == j as usize);
                }
                if t.contains(j as usize) && j != c {
                    let q = choose|q: int| 0 <= q < t.len() && t[q] == j as usize;
                    assert(corners@.take(k as int)[q] == j as usize);
                }
            }
        }
        k = k + 1;
    }
    assert(corners@.take(k as int) =~= corners@);
    let breaks: Vec<usize> = marked_indices(&marked);
    proof {
        assert(marked@[0] && marked@[n - 1]);
        assert(breaks@.contains(0) && breaks@.contains((n - 1) as usize));
        lemma_ascending_ends(breaks@, 0, (n - 1) as usize);
    }
    breaks
}

/// The commands of the first `k` runs between breaks. `side` gives the tangent
/// at a point, looking forwards or backwards.
pub open spec fn runs_segs<
    P,
    S,
    T,
    L: Fn(usize, usize) -> bool,
    C: Fn(usize, usize, T, T) -> Option<(P, P)>,
    A: Fn(usize, usize) -> Option<(S, bool, bool)>,
    K: Fn(usize, usize, usize) -> Option<(P, P, P)>,
    W: Fn(usize, usize, T, T) -> usize,
    M: Fn(usize) -> (T, T),
    O: Fn(usize, bool) -> T,
>(
    line: L,
    cubic: C,
    arc: A,
    piece: K,
    worst: W,
    centre: M,
    side: O,
    pts: Seq<P>,
    cfg: FitConfig,
    breaks: Seq<usize>,
    k: int,
) -> Seq<Seg<P, S>>
    decreases k,
{
    if k <= 0 {
        Seq::empty()
    } else {
        let a = breaks[k - 1];
        let b = breaks[k];
        runs_segs(line, cubic, arc, piece, worst, centre, side, pts, cfg, breaks, k - 1) + run_segs(
            line,
            cubic,
            arc,
            piece,
            worst,
            centre,
            pts,
            cfg,
            a,
            b,
            value2(side, a, true),
            value2(side, b, false),
            0,
        )
    }
}

/// `segs` is the fit of the whole contour.
///
/// `closed` marks a loop whose last point repeats its first; such a contour may
/// legitimately have no corners at all, in which case it is fitted as a single
/// smooth closed curve, with the tangents `seam` at its seam. Otherwise it is
/// fitted run by run between corners.
pub open spec fn is_contour_fit<
    P,
    S,
    T,
    L: Fn(usize, usize) -> bool,
    C: Fn(usize, usize, T, T) -> Option<(P, P)>,
    A: Fn(usize, usize) -> Option<(S, bool, bool)>,
    K: Fn(usize, usize, usize) -> Option<(P, P, P)>,
    W: Fn(usize, usize, T, T) -> usize,
    M: Fn(usize) -> (T, T),
    O: Fn(usize, bool) -> T,
>(
    line: L,
    cubic: C,
    arc: A,
    piece: K,
    worst: W,
    centre: M,
    side: O,
    seam: (T, T),
    pts: Seq<P>,
    corners: Seq<usize>,
    closed: bool,
    cfg: FitConfig,
    segs: Seq<Seg<P, S>>,
) -> bool {
    let n = pts.len() as int;
    if n < 2 {
        segs == Seq::<Seg<P, S>>::empty()
    } else if closed && no_corner_within(corners, n) {
        let run = run_segs(
            line,
            cubic,
            arc,
            piece,
            worst,
            centre,
            pts,
            cfg,
            0,
            (n - 1) as usize,
            seam.0,
            seam.1,
            0,
        );
        if run.len() == 0 {
            segs == run
        } else {
            segs == run.update(run.len() - 1, seg_ending(run.last(), pts[0]))
        }
    } else {
        exists|breaks: Seq<usize>| #[trigger]
            are_breaks(breaks, corners, n) && segs == runs_segs(
                line,
                cubic,
                arc,
                piece,
                worst,
                centre,
                side,
                pts,
                cfg,
                breaks,
                breaks.len() - 1,
            )
    }
}

/// The commands of the first `k` runs end at the break after them.
proof fn lemma_runs_reach<
    P,
    S,
    T,
    L: Fn(usize, usize) -> bool,
    C: Fn(usize, usize, T, T) -> Option<(P, P)>,
    A: Fn(usize, usize) -> Option<(S, bool, bool)>,
    K: Fn(usize, usize, usize) -> Option<(P, P, P)>,
    W: Fn(usize, usize, T, T) -> usize,
    M: Fn(usize) -> (T, T),
    O: Fn(usize, bool) -> T,
>(
    line: L,
    cubic: C,
    arc: A,
    piece: K,
    worst: W,
    centre: M,
    side: O,
    pts: Seq<P>,
    cfg: FitConfig,
    breaks: Seq<usize>,
    k: int,
)
    requires
        ascending(breaks),
        1 <= k < breaks.len(),
        forall|q: int| 0 <= q < breaks.len() ==> (#[trigger] breaks[q]) < pts.len(),
        arcs_reach(arc, piece, pts, cfg),
    ensures
        ({
            let segs = runs_segs::<P, S, T, L, C, A, K, W, M, O>(
                line,
                cubic,
                arc,
                piece,
                worst,
                centre,
                side,
                pts,
                cfg,
                breaks,
                k,
            );
            segs.len() > 0 && seg_end(segs.last()) == pts[breaks[k] as int]
        }),
{
    let a = breaks[k - 1];
    let b = breaks[k];
    law_run_reaches_its_end::<P, S, T, L, C, A, K, W, M>(
        line,
        cubic,
        arc,
        piece,
        worst,
        centre,
        pts,
        cfg,
        a,
        b,
        value2(side, a, true),
        value2(side, b, false),
        0,
    );
}

/// The commands for a contour end exactly where it ends: at its last point, or,
/// for a loop without corners, back at its first.
pub proof fn law_contour_reaches_its_end<
    P,
    S,
    T,
    L: Fn(usize, usize) -> bool,
    C: Fn(usize, usize, T, T) -> Option<(P, P)>,
    A: Fn(usize, usize) -> Option<(S, bool, bool)>,
    K: Fn(usize, usize, usize) -> Option<(P, P, P)>,
    W: Fn(usize, usize, T, T) -> usize,
    M: Fn(usize) -> (T, T),
    O: Fn(usize, bool) -> T,
>(
    line: L,
    cubic: C,
    arc: A,
    piece: K,
    worst: W,
    centre: M,
    side: O,
    seam: (T, T),
    pts: Seq<P>,
    corners: Seq<usize>,
    closed: bool,
    cfg: FitConfig,
    segs: Seq<Seg<P, S>>,
)
    requires
        2 <= pts.len() <= usize::MAX,
        arcs_reach(arc, piece, pts, cfg),
        is_contour_fit(
            line,
            cubic,
            arc,
            piece,
            worst,
            centre,
            side,
            seam,
            pts,
            corners,
            closed,
            cfg,
            segs,
        ),
    ensures
        segs.len() > 0,
        seg_end(segs.last()) == if closed && no_corner_within(corners, pts.len() as int) {
            pts[0]
        } else {
            pts.last()
        },
{
    let n = pts.len() as int;
    if closed && no_corner_within(corners, n) {
        law_run_reaches_its_end::<P, S, T, L, C, A, K, W, M>(
            line,
            cubic,
            arc,
            piece,
            worst,
            centre,
            pts,
            cfg,
            0,
            (n - 1) as usize,
            seam.0,
            seam.1,
            0,
        );
    } else {
        let breaks = choose|breaks: Seq<usize>| #[trigger]
            are_breaks(breaks, corners, n) && segs == runs_segs(
                line,
                cubic,
                arc,
                piece,
                worst,
                centre,
                side,
                pts,
                cfg,
                breaks,
                breaks.len() - 1,
            );
        assert(breaks.contains(0) && breaks.contains((n - 1) as usize));
        lemma_ascending_ends(breaks, 0, (n - 1) as usize);
        lemma_runs_reach::<P, S, T, L, C, A, K, W, M, O>(
            line,
            cubic,
            arc,
            piece,
            worst,
            centre,
            side,
            pts,
            cfg,
            breaks,
            breaks.len() - 1,
        );
    }
}

/// The commands of the first runs come first.
proof fn lemma_runs_prefix<
    P,
    S,
    T,
    L: Fn(usize, usize) -> bool,
    C: Fn(usize, usize, T, T) -> Option<(P, P)>,
    A: Fn(usize, usize) -> Option<(S, bool, bool)>,
    K: Fn(usize, usize, usize) -> Option<(P, P, P)>,
    W: Fn(usize, usize, T, T) -> usize,
    M: Fn(usize) -> (T, T),
    O: Fn(usize, bool) -> T,
>(
    line: L,
    cubic: C,
    arc: A,
    piece: K,
    worst: W,
    centre: M,
    side: O,
    pts: Seq<P>,
    cfg: FitConfig,
    breaks: Seq<usize>,
    j: int,
    k: int,
)
    requires
        0 <= j <= k,
    ensures
        ({
            let all = runs_segs::<P, S, T, L, C, A, K, W, M, O>(
                line,
                cubic,
                arc,
                piece,
                worst,
                centre,
                side,
                pts,
                cfg,
                breaks,
                k,
            );
            let first = runs_segs::<P, S, T, L, C, A, K, W, M, O>(
                line,
                cubic,
                arc,
                piece,
                worst,
                centre,
                side,
                pts,
                cfg,
                breaks,
                j,
            );
            first.len() <= all.len() && all.take(first.len() as int) == first
        }),
    decreases k,
{
    let all = runs_segs::<P, S, T, L, C, A, K, W, M, O>(
        line,
        cubic,
        arc,
        piece,
        worst,
        centre,
        side,
        pts,
        cfg,
        breaks,
        k,
    );
    let first = runs_segs::<P, S, T, L, C, A, K, W, M, O>(
        line,
        cubic,
        arc,
        piece,
        worst,
        centre,
        side,
        pts,
        cfg,
        breaks,
        j,
    );
    if j == k {
        assert(all.take(first.len() as int) =~= first);
    } else {
        lemma_runs_prefix::<P, S, T, L, C, A, K, W, M, O>(
            line,
            cubic,
            arc,
            piece,
            worst,
            centre,
            side,
            pts,
            cfg,
            breaks,
            j,
            k - 1,
        );
        let rest = runs_segs::<P, S, T, L, C, A, K, W, M, O>(
            line,
            cubic,
            arc,
            piece,
            worst,
            centre,
            side,
            pts,
            cfg,
            breaks,
            k - 1,
        );
        assert(all.take(first.len() as int) =~= rest.take(first.len() as int));
    }
}

/// Corners survive fitting: at every corner inside a contour a command ends, so
/// that no curve is drawn across it.
pub proof fn law_every_corner_ends_a_command<
    P,
    S,
    T,
    L: Fn(usize, usize) -> bool,
    C: Fn(usize, usize, T, T) -> Option<(P, P)>,
    A: Fn(usize, usize) -> Option<(S, bool, bool)>,
    K: Fn(usize, usize, usize) -> Option<(P, P, P)>,
    W: Fn(usize, usize, T, T) -> usize,
    M: Fn(usize) -> (T, T),
    O: Fn(usize, bool) -> T,
>(
    line: L,
    cubic: C,
    arc: A,
    piece: K,
    worst: W,
    centre: M,
    side: O,
    seam: (T, T),
    pts: Seq<P>,
    corners: Seq<usize>,
    closed: bool,
    cfg: FitConfig,
    segs: Seq<Seg<P, S>>,
    corner: usize,
)
    requires
        2 <= pts.len() <= usize::MAX,
        arcs_reach(arc, piece, pts, cfg),
        is_contour_fit(
            line,
            cubic,
            arc,
            piece,
            worst,
            centre,
            side,
            seam,
            pts,
            corners,
            closed,
            cfg,
            segs,
        ),
        corners.contains(corner),
        0 < corner < pts.len(),
    ensures
        exists|k: int| 0 <= k < segs.len() && seg_end(#[trigger] segs[k]) == pts[corner as int],
{
    let n = pts.len() as int;
    let at = choose|q: int| 0 <= q < corners.len() && corners[q] == corner;
    assert(corners[at] < n);
    assert(!no_corner_within(corners, n));
    let breaks = choose|breaks: Seq<usize>| #[trigger]
        are_breaks(breaks, corners, n) && segs == runs_segs(
            line,
            cubic,
            arc,
            piece,
            worst,
            centre,
            side,
            pts,
            cfg,
            breaks,
            breaks.len() - 1,
        );
    assert(is_corner(corners, corner));
    assert(breaks.contains(corner) && breaks.contains(0) && breaks.contains((n - 1) as usize));
    lemma_ascending_ends(breaks, 0, (n - 1) as usize);
    let j = choose|j: int| 0 <= j < breaks.len() && breaks[j] == corner;
    assert(j > 0);
    lemma_runs_reach::<P, S, T, L, C, A, K, W, M, O>(
        line,
        cubic,
        arc,
        piece,
        worst,
        centre,
        side,
        pts,
        cfg,
        breaks,
        j,
    );
    lemma_runs_prefix::<P, S, T, L, C, A, K, W, M, O>(
        line,
        cubic,
        arc,
        piece,
        worst,
        centre,
        side,
        pts,
        cfg,
        breaks,
        j,
        breaks.len() - 1,
    );
    let first = runs_segs::<P, S, T, L, C, A, K, W, M, O>(
        line,
        cubic,
        arc,
        piece,
        worst,
        centre,
        side,
        pts,
        cfg,
        breaks,
        j,
    );
    let k = first.len() - 1;
    assert(segs.take(first.len() as int)[k] == segs[k]);
    assert(seg_end(segs[k]) == pts[corner as int]);
}

// ---- What the commands stand for ----------------------------------------

/// The stretch of a contour that a command was fitted to, and which of the cubics of
/// its arc the command is, where the arc is drawn with cubics.
pub ghost struct Span {
    pub from: usize,
    pub to: usize,
    pub piece: usize,
}

/// `seg`, drawn from `prev`, is what was fitted to `span`: a line where a line will do
/// or there is nothing between the two points, else the cubic that holds the stretch,
/// with the tangents `lo` at its start and `hi` at its end, else the circular arc,
/// with its radius and both its flags, or one of the cubics that draw it.
#[verifier::opaque]
pub open spec fn stands_for<
    P,
    S,
    T,
    L: Fn(usize, usize) -> bool,
    C: Fn(usize, usize, T, T) -> Option<(P, P)>,
    A: Fn(usize, usize) -> Option<(S, bool, bool)>,
    K: Fn(usize, usize, usize) -> Option<(P, P, P)>,
>(
    line: L,
    cubic: C,
    arc: A,
    piece: K,
    pts: Seq<P>,
    cfg: FitConfig,
    lo: spec_fn(usize) -> T,
    hi: spec_fn(usize) -> T,
    prev: P,
    seg: Seg<P, S>,
    span: Span,
) -> bool {
    let (a, b) = (span.from, span.to);
    let straight = b == a + 1 || (cfg.allow_lines && value2(line, a, b));
    let bent = value4(cubic, a, b, lo(a), hi(b));
    &&& a < b < pts.len()
    &&& match seg {
        Seg::Line { to } => {
            // A stretch that nothing holds ends up as steps from point to point.
            &&& straight
            &&& prev == pts[a as int]
            &&& to == pts[b as int]
            &&& span.piece == 0
        },
        Seg::Cubic { c1, c2, to } => {
            ||| !straight && bent == Some((c1, c2)) && prev == pts[a as int] && to == pts[b as int]
                && span.piece == 0
            ||| !straight && bent is None && cfg.allow_arcs && !cfg.emit_true_arcs && value2(
                arc,
                a,
                b,
            ) is Some && span.piece < MAX_ARC_CUBICS && value3(piece, a, b, span.piece) == Some(
                (c1, c2, to),
            )
        },
        Seg::Arc { r, large, sweep, to } => {
            &&& !straight
            &&& bent is None
            &&& cfg.allow_arcs
            &&& cfg.emit_true_arcs
            &&& prev == pts[a as int]
            &&& to == pts[b as int]
            &&& value2(arc, a, b) is Some
            &&& (value2(arc, a, b)->0).0 == r
            &&& (value2(arc, a, b)->0).1 == large
            &&& (value2(arc, a, b)->0).2 == sweep
            &&& span.piece == 0
        },
    }
}

/// Where command `q` of a contour that starts at `start` begins.
pub open spec fn begins_at<P, S>(start: P, segs: Seq<Seg<P, S>>, q: int) -> P {
    if q == 0 {
        start
    } else {
        seg_end(segs[q - 1])
    }
}

/// Span `q` begins where the one before it ends, or is the next cubic of its arc.
pub open spec fn follows(spans: Seq<Span>, q: int) -> bool {
    ||| spans[q].from == spans[q - 1].to && spans[q].piece == 0
    ||| spans[q].from == spans[q - 1].from && spans[q].to == spans[q - 1].to && spans[q].piece
        == spans[q - 1].piece + 1
}

/// The spans follow one another from point `i0` to point `i1` without a gap or an
/// overlap; the cubics of an arc share its span, and come in order.
pub open spec fn in_order(spans: Seq<Span>, i0: usize, i1: usize) -> bool {
    &&& spans.len() > 0
    &&& spans[0].from == i0
    &&& spans[0].piece == 0
    &&& spans.last().to == i1
    &&& forall|q: int| 0 < q < spans.len() ==> #[trigger] follows(spans, q)
}

/// Every command stands for its span.
pub open spec fn all_stand<
    P,
    S,
    T,
    L: Fn(usize, usize) -> bool,
    C: Fn(usize, usize, T, T) -> Option<(P, P)>,
    A: Fn(usize, usize) -> Option<(S, bool, bool)>,
    K: Fn(usize, usize, usize) -> Option<(P, P, P)>,
>(
    line: L,
    cubic: C,
    arc: A,
    piece: K,
    pts: Seq<P>,
    cfg: FitConfig,
    lo: spec_fn(usize) -> T,
    hi: spec_fn(usize) -> T,
    start: P,
    segs: Seq<Seg<P, S>>,
    spans: Seq<Span>,
) -> bool {
    &&& spans.len() == segs.len()
    &&& forall|q: int|
        0 <= q < segs.len() ==> stands_for(
            line,
            cubic,
            arc,
            piece,
            pts,
            cfg,
            lo,
            hi,
            begins_at(start, segs, q),
            #[trigger] segs[q],
            spans[q],
        )
}

proof fn lemma_arc_cubics<P, S, K: Fn(usize, usize, usize) -> Option<(P, P, P)>>(
    piece: K,
    i0: usize,
    i1: usize,
    k: usize,
    j: int,
)
    requires
        k <= MAX_ARC_CUBICS,
        0 <= j < arc_cubics::<P, S, K>(piece, i0, i1, k).len(),
    ensures
        arc_cubics::<P, S, K>(piece, i0, i1, k).len() <= MAX_ARC_CUBICS - k,
        arc_cubics::<P, S, K>(piece, i0, i1, k)[j] matches Seg::Cubic { c1, c2, to } && value3(
            piece,
            i0,
            i1,
            (k + j) as usize,
        ) == Some((c1, c2, to)),
    decreases MAX_ARC_CUBICS - k,
{
    let rest = arc_cubics::<P, S, K>(piece, i0, i1, (k + 1) as usize);
    if j > 0 {
        lemma_arc_cubics::<P, S, K>(piece, i0, i1, (k + 1) as usize, j - 1);
        assert(arc_cubics::<P, S, K>(piece, i0, i1, k)[j] == rest[j - 1]);
    } else if rest.len() > 0 {
        lemma_arc_cubics::<P, S, K>(piece, i0, i1, (k + 1) as usize, 0);
    }
}

proof fn lemma_spans_in_order(s: Seq<Span>, t: Seq<Span>, i0: usize, at: usize, i1: usize)
    requires
        in_order(s, i0, at),
        in_order(t, at, i1),
    ensures
        in_order(s + t, i0, i1),
{
    let spans = s + t;
    assert forall|q: int| 0 < q < spans.len() implies #[trigger] follows(spans, q) by {
        if q < s.len() {
            assert(follows(s, q));
        } else if q > s.len() {
            assert(follows(t, q - s.len()));
        }
    }
    assert(spans[0] == s[0]);
    assert(spans.last() == t.last());
}

proof fn lemma_joined_spans<
    P,
    S,
    T,
    L: Fn(usize, usize) -> bool,
    C: Fn(usize, usize, T, T) -> Option<(P, P)>,
    A: Fn(usize, usize) -> Option<(S, bool, bool)>,
    K: Fn(usize, usize, usize) -> Option<(P, P, P)>,
>(
    line: L,
    cubic: C,
    arc: A,
    piece: K,
    pts: Seq<P>,
    cfg: FitConfig,
    lo: spec_fn(usize) -> T,
    hi: spec_fn(usize) -> T,
    i0: usize,
    at: usize,
    i1: usize,
    a: Seq<Seg<P, S>>,
    b: Seq<Seg<P, S>>,
    s: Seq<Span>,
    t: Seq<Span>,
)
    requires
        i0 < pts.len(),
        at < pts.len(),
        a.len() > 0,
        seg_end(a.last()) == pts[at as int],
        in_order(s, i0, at),
        in_order(t, at, i1),
        all_stand(line, cubic, arc, piece, pts, cfg, lo, hi, pts[i0 as int], a, s),
        all_stand(line, cubic, arc, piece, pts, cfg, lo, hi, pts[at as int], b, t),
    ensures
        in_order(s + t, i0, i1),
        all_stand(line, cubic, arc, piece, pts, cfg, lo, hi, pts[i0 as int], a + b, s + t),
{
    let (segs, spans) = (a + b, s + t);
    lemma_spans_in_order(s, t, i0, at, i1);
    assert forall|q: int| 0 <= q < segs.len() implies stands_for(
        line,
        cubic,
        arc,
        piece,
        pts,
        cfg,
        lo,
        hi,
        begins_at(pts[i0 as int], segs, q),
        #[trigger] segs[q],
        spans[q],
    ) by {
        if q < a.len() {
            assert(segs[q] == a[q] && spans[q] == s[q]);
            assert(begins_at(pts[i0 as int], segs, q) == begins_at(pts[i0 as int], a, q));
        } else {
            let j = q - a.len();
            assert(segs[q] == b[j] && spans[q] == t[j]);
            assert(begins_at(pts[i0 as int], segs, q) == begins_at(pts[at as int], b, j));
        }
    }
}

/// Every command of a run stands for a stretch of it, and the stretches follow one
/// another from its first point to its last.
pub proof fn law_every_command_of_a_run_was_fitted<
    P,
    S,
    T,
    L: Fn(usize, usize) -> bool,
    C: Fn(usize, usize, T, T) -> Option<(P, P)>,
    A: Fn(usize, usize) -> Option<(S, bool, bool)>,
    K: Fn(usize, usize, usize) -> Option<(P, P, P)>,
    W: Fn(usize, usize, T, T) -> usize,
    M: Fn(usize) -> (T, T),
>(
    line: L,
    cubic: C,
    arc: A,
    piece: K,
    worst: W,
    centre: M,
    pts: Seq<P>,
    cfg: FitConfig,
    i0: usize,
    i1: usize,
    left: T,
    right: T,
    depth: int,
    lo: spec_fn(usize) -> T,
    hi: spec_fn(usize) -> T,
) -> (spans: Seq<Span>)
    requires
        i0 < i1 < pts.len(),
        arcs_reach(arc, piece, pts, cfg),
        lo(i0) == left,
        hi(i1) == right,
        forall|k: usize| i0 < k < i1 ==> #[trigger] lo(k) == value1(centre, k).1,
        forall|k: usize| i0 < k < i1 ==> #[trigger] hi(k) == value1(centre, k).0,
    ensures
        in_order(spans, i0, i1),
        all_stand(
            line,
            cubic,
            arc,
            piece,
            pts,
            cfg,
            lo,
            hi,
            pts[i0 as int],
            run_segs::<P, S, T, L, C, A, K, W, M>(
                line,
                cubic,
                arc,
                piece,
                worst,
                centre,
                pts,
                cfg,
                i0,
                i1,
                left,
                right,
                depth,
            ),
            spans,
        ),
    decreases i1 - i0,
{
    let segs = run_segs::<P, S, T, L, C, A, K, W, M>(
        line,
        cubic,
        arc,
        piece,
        worst,
        centre,
        pts,
        cfg,
        i0,
        i1,
        left,
        right,
        depth,
    );
    reveal(stands_for);
    let whole = Span { from: i0, to: i1, piece: 0 };
    if i1 - i0 == 1 || (cfg.allow_lines && value2(line, i0, i1)) {
        seq![whole]
    } else if value4(cubic, i0, i1, left, right) is Some {
        seq![whole]
    } else if cfg.allow_arcs && value2(arc, i0, i1) is Some {
        if cfg.emit_true_arcs {
            seq![whole]
        } else {
            let cubics = arc_cubics::<P, S, K>(piece, i0, i1, 0);
            let spans = Seq::new(
                cubics.len(),
                |k: int| Span { from: i0, to: i1, piece: k as usize },
            );
            assert forall|q: int| 0 <= q < segs.len() implies stands_for(
                line,
                cubic,
                arc,
                piece,
                pts,
                cfg,
                lo,
                hi,
                begins_at(pts[i0 as int], segs, q),
                #[trigger] segs[q],
                spans[q],
            ) by {
                lemma_arc_cubics::<P, S, K>(piece, i0, i1, 0, q);
            }
            lemma_arc_cubics::<P, S, K>(piece, i0, i1, 0, 0);
            assert forall|q: int| 0 < q < spans.len() implies #[trigger] follows(spans, q) by {}
            spans
        }
    } else if depth >= cfg.max_depth {
        let spans = Seq::new(
            (i1 - i0) as nat,
            |k: int| Span { from: (i0 + k) as usize, to: (i0 + k + 1) as usize, piece: 0 },
        );
        assert forall|q: int| 0 <= q < segs.len() implies stands_for(
            line,
            cubic,
            arc,
            piece,
            pts,
            cfg,
            lo,
            hi,
            begins_at(pts[i0 as int], segs, q),
            #[trigger] segs[q],
            spans[q],
        ) by {
            if q > 0 {
                assert(segs[q - 1] == Seg::<P, S>::Line { to: pts[i0 + q] });
            }
        }
        assert forall|q: int| 0 < q < spans.len() implies #[trigger] follows(spans, q) by {}
        spans
    } else {
        let at = split_at(i0 as int, i1 as int, value4(worst, i0, i1, left, right) as int) as usize;
        let (arrive, leave) = value1(centre, at);
        let s = law_every_command_of_a_run_was_fitted::<P, S, T, L, C, A, K, W, M>(
            line,
            cubic,
            arc,
            piece,
            worst,
            centre,
            pts,
            cfg,
            i0,
            at,
            left,
            arrive,
            depth + 1,
            lo,
            hi,
        );
        let t = law_every_command_of_a_run_was_fitted::<P, S, T, L, C, A, K, W, M>(
            line,
            cubic,
            arc,
            piece,
            worst,
            centre,
            pts,
            cfg,
            at,
            i1,
            leave,
            right,
            depth + 1,
            lo,
            hi,
        );
        let a = run_segs::<P, S, T, L, C, A, K, W, M>(
            line,
            cubic,
            arc,
            piece,
            worst,
            centre,
            pts,
            cfg,
            i0,
            at,
            left,
            arrive,
            depth + 1,
        );
        let b = run_segs::<P, S, T, L, C, A, K, W, M>(
            line,
            cubic,
            arc,
            piece,
            worst,
            centre,
            pts,
            cfg,
            at,
            i1,
            leave,
            right,
            depth + 1,
        );
        law_run_reaches_its_end::<P, S, T, L, C, A, K, W, M>(
            line,
            cubic,
            arc,
            piece,
            worst,
            centre,
            pts,
            cfg,
            i0,
            at,
            left,
            arrive,
            depth + 1,
        );
        lemma_joined_spans(line, cubic, arc, piece, pts, cfg, lo, hi, i0, at, i1, a, b, s, t);
        s + t
    }
}

/// A run that one command holds becomes one command: a line where a line will do, else
/// the cubic, else, where those are drawn as such, the circular arc.
pub proof fn law_one_command_where_one_will_do<
    P,
    S,
    T,
    L: Fn(usize, usize) -> bool,
    C: Fn(usize, usize, T, T) -> Option<(P, P)>,
    A: Fn(usize, usize) -> Option<(S, bool, bool)>,
    K: Fn(usize, usize, usize) -> Option<(P, P, P)>,
    W: Fn(usize, usize, T, T) -> usize,
    M: Fn(usize) -> (T, T),
>(
    line: L,
    cubic: C,
    arc: A,
    piece: K,
    worst: W,
    centre: M,
    pts: Seq<P>,
    cfg: FitConfig,
    i0: usize,
    i1: usize,
    left: T,
    right: T,
    depth: int,
)
    requires
        i0 < i1 < pts.len(),
    ensures
        ({
            let segs = run_segs::<P, S, T, L, C, A, K, W, M>(
                line,
                cubic,
                arc,
                piece,
                worst,
                centre,
                pts,
                cfg,
                i0,
                i1,
                left,
                right,
                depth,
            );
            let straight = i1 == i0 + 1 || (cfg.allow_lines && value2(line, i0, i1));
            let bent = value4(cubic, i0, i1, left, right);
            &&& straight ==> segs.len() == 1 && segs[0] is Line && seg_end(segs[0])
                == pts[i1 as int]
            &&& !straight && bent is Some ==> segs.len() == 1 && segs[0] == (Seg::<
                P,
                S,
            >::Cubic { c1: (bent->0).0, c2: (bent->0).1, to: pts[i1 as int] })
            &&& !straight && bent is None && cfg.allow_arcs && cfg.emit_true_arcs && value2(
                arc,
                i0,
                i1,
            ) is Some ==> segs.len() == 1 && segs[0] is Arc
        }),
{
}

/// A run that nothing holds is split where it strays furthest: a command ends at that
/// very point.
pub proof fn law_runs_split_at_the_worst_point<
    P,
    S,
    T,
    L: Fn(usize, usize) -> bool,
    C: Fn(usize, usize, T, T) -> Option<(P, P)>,
    A: Fn(usize, usize) -> Option<(S, bool, bool)>,
    K: Fn(usize, usize, usize) -> Option<(P, P, P)>,
    W: Fn(usize, usize, T, T) -> usize,
    M: Fn(usize) -> (T, T),
>(
    line: L,
    cubic: C,
    arc: A,
    piece: K,
    worst: W,
    centre: M,
    pts: Seq<P>,
    cfg: FitConfig,
    i0: usize,
    i1: usize,
    left: T,
    right: T,
    depth: int,
)
    requires
        i0 + 1 < i1 < pts.len(),
        arcs_reach(arc, piece, pts, cfg),
        !(cfg.allow_lines && value2(line, i0, i1)),
        value4(cubic, i0, i1, left, right) is None,
        !(cfg.allow_arcs && value2(arc, i0, i1) is Some),
        depth < cfg.max_depth,
        0 < value4(worst, i0, i1, left, right) < i1 - i0,
    ensures
        exists|q: int|
            0 <= q < run_segs::<P, S, T, L, C, A, K, W, M>(
                line,
                cubic,
                arc,
                piece,
                worst,
                centre,
                pts,
                cfg,
                i0,
                i1,
                left,
                right,
                depth,
            ).len() && seg_end(#[trigger] run_segs::<P, S, T, L, C, A, K, W, M>(
                line,
                cubic,
                arc,
                piece,
                worst,
                centre,
                pts,
                cfg,
                i0,
                i1,
                left,
                right,
                depth,
            )[q]) == pts[i0 + value4(worst, i0, i1, left, right)],
{
    let at = (i0 + value4(worst, i0, i1, left, right)) as usize;
    let (arrive, leave) = value1(centre, at);
    law_run_reaches_its_end::<P, S, T, L, C, A, K, W, M>(
        line,
        cubic,
        arc,
        piece,
        worst,
        centre,
        pts,
        cfg,
        i0,
        at,
        left,
        arrive,
        depth + 1,
    );
    let a = run_segs::<P, S, T, L, C, A, K, W, M>(
        line,
        cubic,
        arc,
        piece,
        worst,
        centre,
        pts,
        cfg,
        i0,
        at,
        left,
        arrive,
        depth + 1,
    );
    let segs = run_segs::<P, S, T, L, C, A, K, W, M>(
        line,
        cubic,
        arc,
        piece,
        worst,
        centre,
        pts,
        cfg,
        i0,
        i1,
        left,
        right,
        depth,
    );
    assert(segs[a.len() - 1] == a.last());
    assert(seg_end(segs[a.len() - 1]) == pts[at as int]);
}

proof fn lemma_runs_stand<
    P,
    S,
    T,
    L: Fn(usize, usize) -> bool,
    C: Fn(usize, usize, T, T) -> Option<(P, P)>,
    A: Fn(usize, usize) -> Option<(S, bool, bool)>,
    K: Fn(usize, usize, usize) -> Option<(P, P, P)>,
    W: Fn(usize, usize, T, T) -> usize,
    M: Fn(usize) -> (T, T),
    O: Fn(usize, bool) -> T,
>(
    line: L,
    cubic: C,
    arc: A,
    piece: K,
    worst: W,
    centre: M,
    side: O,
    pts: Seq<P>,
    cfg: FitConfig,
    breaks: Seq<usize>,
    k: int,
    lo: spec_fn(usize) -> T,
    hi: spec_fn(usize) -> T,
) -> (spans: Seq<Span>)
    requires
        ascending(breaks),
        1 <= k < breaks.len(),
        forall|q: int| 0 <= q < breaks.len() ==> (#[trigger] breaks[q]) < pts.len(),
        arcs_reach(arc, piece, pts, cfg),
        forall|x: usize| #[trigger]
            lo(x) == if breaks.contains(x) {
                value2(side, x, true)
            } else {
                value1(centre, x).1
            },
        forall|x: usize| #[trigger]
            hi(x) == if breaks.contains(x) {
                value2(side, x, false)
            } else {
                value1(centre, x).0
            },
    ensures
        in_order(spans, breaks[0], breaks[k]),
        all_stand(
            line,
            cubic,
            arc,
            piece,
            pts,
            cfg,
            lo,
            hi,
            pts[breaks[0] as int],
            runs_segs::<P, S, T, L, C, A, K, W, M, O>(
                line,
                cubic,
                arc,
                piece,
                worst,
                centre,
                side,
                pts,
                cfg,
                breaks,
                k,
            ),
            spans,
        ),
    decreases k,
{
    let a = breaks[k - 1];
    let b = breaks[k];
    assert(a < b);
    assert forall|x: usize| a < x < b implies !breaks.contains(x) by {
        if breaks.contains(x) {
            let j = choose|j: int| 0 <= j < breaks.len() && breaks[j] == x;
            if j < k - 1 {
                assert(breaks[j] < breaks[k - 1]);
            } else if j > k {
                assert(breaks[k] < breaks[j]);
            }
        }
    }
    let t = law_every_command_of_a_run_was_fitted::<P, S, T, L, C, A, K, W, M>(
        line,
        cubic,
        arc,
        piece,
        worst,
        centre,
        pts,
        cfg,
        a,
        b,
        value2(side, a, true),
        value2(side, b, false),
        0,
        lo,
        hi,
    );
    let run = run_segs::<P, S, T, L, C, A, K, W, M>(
        line,
        cubic,
        arc,
        piece,
        worst,
        centre,
        pts,
        cfg,
        a,
        b,
        value2(side, a, true),
        value2(side, b, false),
        0,
    );
    let before = runs_segs::<P, S, T, L, C, A, K, W, M, O>(
        line,
        cubic,
        arc,
        piece,
        worst,
        centre,
        side,
        pts,
        cfg,
        breaks,
        k - 1,
    );
    if k == 1 {
        assert(before + run =~= run);
        t
    } else {
        let s = lemma_runs_stand::<P, S, T, L, C, A, K, W, M, O>(
            line,
            cubic,
            arc,
            piece,
            worst,
            centre,
            side,
            pts,
            cfg,
            breaks,
            k - 1,
            lo,
            hi,
        );
        lemma_runs_reach::<P, S, T, L, C, A, K, W, M, O>(
            line,
            cubic,
            arc,
            piece,
            worst,
            centre,
            side,
            pts,
            cfg,
            breaks,
            k - 1,
        );
        lemma_joined_spans(
            line,
            cubic,
            arc,
            piece,
            pts,
            cfg,
            lo,
            hi,
            breaks[0],
            a,
            b,
            before,
            run,
            s,
            t,
        );
        s + t
    }
}

/// Every command of a contour was fitted: it stands for a stretch of the contour, with
/// every number and flag of what was fitted there, and the stretches follow one
/// another from the first point to the last. At a corner the tangents are those of its
/// own side; elsewhere those of the two sides are centred, and at the seam of a loop
/// without corners they are `seam`.
pub proof fn law_every_command_was_fitted<
    P,
    S,
    T,
    L: Fn(usize, usize) -> bool,
    C: Fn(usize, usize, T, T) -> Option<(P, P)>,
    A: Fn(usize, usize) -> Option<(S, bool, bool)>,
    K: Fn(usize, usize, usize) -> Option<(P, P, P)>,
    W: Fn(usize, usize, T, T) -> usize,
    M: Fn(usize) -> (T, T),
    O: Fn(usize, bool) -> T,
>(
    line: L,
    cubic: C,
    arc: A,
    piece: K,
    worst: W,
    centre: M,
    side: O,
    seam: (T, T),
    pts: Seq<P>,
    corners: Seq<usize>,
    closed: bool,
    cfg: FitConfig,
    segs: Seq<Seg<P, S>>,
) -> (r: (Seq<Span>, spec_fn(usize) -> T, spec_fn(usize) -> T))
    requires
        2 <= pts.len() <= usize::MAX,
        closed ==> pts.last() == pts[0],
        arcs_reach(arc, piece, pts, cfg),
        is_contour_fit(
            line,
            cubic,
            arc,
            piece,
            worst,
            centre,
            side,
            seam,
            pts,
            corners,
            closed,
            cfg,
            segs,
        ),
    ensures
        in_order(r.0, 0, (pts.len() - 1) as usize),
        all_stand(line, cubic, arc, piece, pts, cfg, r.1, r.2, pts[0], segs, r.0),
        forall|x: usize|
            #![trigger (r.1)(x)]
            #![trigger (r.2)(x)]
            x < pts.len() ==> {
                let smooth = closed && forall|k: int|
                    0 <= k < corners.len() ==> (#[trigger] corners[k]) >= pts.len();
                let end = x == 0 || x == pts.len() - 1;
                if smooth && end {
                    &&& x == 0 ==> (r.1)(x) == seam.0
                    &&& x == pts.len() - 1 ==> (r.2)(x) == seam.1
                } else if end || corners.contains(x) {
                    (r.1)(x) == value2(side, x, true) && (r.2)(x) == value2(side, x, false)
                } else {
                    (r.1)(x) == value1(centre, x).1 && (r.2)(x) == value1(centre, x).0
                }
            },
{
    let n = pts.len() as int;
    let last = (n - 1) as usize;
    if closed && no_corner_within(corners, n) {
        let lo = |x: usize|
            if x == 0 {
                seam.0
            } else {
                value1(centre, x).1
            };
        let hi = |x: usize|
            if x == last {
                seam.1
            } else {
                value1(centre, x).0
            };
        let spans = law_every_command_of_a_run_was_fitted::<P, S, T, L, C, A, K, W, M>(
            line,
            cubic,
            arc,
            piece,
            worst,
            centre,
            pts,
            cfg,
            0,
            last,
            seam.0,
            seam.1,
            0,
            lo,
            hi,
        );
        law_run_reaches_its_end::<P, S, T, L, C, A, K, W, M>(
            line,
            cubic,
            arc,
            piece,
            worst,
            centre,
            pts,
            cfg,
            0,
            last,
            seam.0,
            seam.1,
            0,
        );
        let run = run_segs::<P, S, T, L, C, A, K, W, M>(
            line,
            cubic,
            arc,
            piece,
            worst,
            centre,
            pts,
            cfg,
            0,
            last,
            seam.0,
            seam.1,
            0,
        );
        assert(seg_ending(run.last(), pts[0]) == run.last());
        assert(segs =~= run);
        assert forall|x: usize| x < n implies !corners.contains(x) by {
            if corners.contains(x) {
                let q = choose|q: int| 0 <= q < corners.len() && corners[q] == x;
                assert(corners[q] >= n);
            }
        }
        (spans, lo, hi)
    } else {
        let breaks = choose|breaks: Seq<usize>| #[trigger]
            are_breaks(breaks, corners, n) && segs == runs_segs(
                line,
                cubic,
                arc,
                piece,
                worst,
                centre,
                side,
                pts,
                cfg,
                breaks,
                breaks.len() - 1,
            );
        assert(breaks.contains(0) && breaks.contains(last));
        lemma_ascending_ends(breaks, 0, last);
        let lo = |x: usize|
            if breaks.contains(x) {
                value2(side, x, true)
            } else {
                value1(centre, x).1
            };
        let hi = |x: usize|
            if breaks.contains(x) {
                value2(side, x, false)
            } else {
                value1(centre, x).0
            };
        let spans = lemma_runs_stand::<P, S, T, L, C, A, K, W, M, O>(
            line,
            cubic,
            arc,
            piece,
            worst,
            centre,
            side,
            pts,
            cfg,
            breaks,
            breaks.len() - 1,
            lo,
            hi,
        );
        assert forall|x: usize| x < n implies breaks.contains(x) == (x == 0 || x == n - 1
            || corners.contains(x)) by {
            assert(is_corner(corners, x) == corners.contains(x));
        }
        (spans, lo, hi)
    }
}

/// Fit one contour, splitting at the supplied corner indices. See
/// [`is_contour_fit`].
#[verifier::rlimit(30)]
pub fn fit_contour<
    P: Copy,
    S: Copy,
    T: Copy,
    L: Fn(usize, usize) -> bool,
    C: Fn(usize, usize, T, T) -> Option<(P, P)>,
    A: Fn(usize, usize) -> Option<(S, bool, bool)>,
    K: Fn(usize, usize, usize) -> Option<(P, P, P)>,
    W: Fn(usize, usize, T, T) -> usize,
    M: Fn(usize) -> (T, T),
    O: Fn(usize, bool) -> T,
>(
    line: &L,
    cubic: &C,
    arc: &A,
    piece: &K,
    worst: &W,
    centre: &M,
    side: &O,
    seam: (T, T),
    pts: &Vec<P>,
    corners: &Vec<usize>,
    closed: bool,
    cfg: &FitConfig,
) -> (segs: Vec<Seg<P, S>>)
    requires
        pure2(*line),
        pure4(*cubic),
        pure2(*arc),
        pure3(*piece),
        pure4(*worst),
        pure1(*centre),
        pure2(*side),
    ensures
        is_contour_fit(
            *line,
            *cubic,
            *arc,
            *piece,
            *worst,
            *centre,
            *side,
            seam,
            pts@,
            corners@,
            closed,
            *cfg,
            segs@,
        ),
{
    let n: usize = pts.len();
    let mut out: Vec<Seg<P, S>> = Vec::new();
    if n < 2 {
        assert(out@ =~= Seq::<Seg<P, S>>::empty());
        return out;
    }
    let mut any: bool = false;
    let mut k: usize = 0;
    while k < corners.len()
        invariant
            k <= corners@.len(),
            any <==> exists|j: int| 0 <= j < k && (#[trigger] corners@[j]) < n,
        decreases corners@.len() - k,
    {
        if corners[k] < n {
            any = true;
        }
        k = k + 1;
    }
    if closed && !any {
        let ghost run = run_segs::<P, S, T, L, C, A, K, W, M>(
            *line,
            *cubic,
            *arc,
            *piece,
            *worst,
            *centre,
            pts@,
            *cfg,
            0,
            (n - 1) as usize,
            seam.0,
            seam.1,
            0,
        );
        fit_run(
            line,
            cubic,
            arc,
            piece,
            worst,
            centre,
            pts,
            cfg,
            0,
            n - 1,
            seam.0,
            seam.1,
            0,
            &mut out,
        );
        assert(out@ =~= run);
        let m: usize = out.len();
        if m > 0 {
            let mut last: Seg<P, S> = out[m - 1];
            last.set_end(pts[0]);
            out.set(m - 1, last);
        }
        return out;
    }
    let breaks: Vec<usize> = contour_breaks(corners, n);
    let mut k: usize = 1;
    assert(out@ =~= Seq::<Seg<P, S>>::empty());
    while k < breaks.len()
        invariant
            1 <= k <= breaks@.len(),
            n == pts@.len(),
            are_breaks(breaks@, corners@, n as int),
            pure2(*line),
            pure4(*cubic),
            pure2(*arc),
            pure3(*piece),
            pure4(*worst),
            pure1(*centre),
            pure2(*side),
            out@ == runs_segs::<P, S, T, L, C, A, K, W, M, O>(
                *line,
                *cubic,
                *arc,
                *piece,
                *worst,
                *centre,
                *side,
                pts@,
                *cfg,
                breaks@,
                k - 1,
            ),
        decreases breaks@.len() - k,
    {
        let a: usize = breaks[k - 1];
        let b: usize = breaks[k];
        assert(breaks@[k - 1] < breaks@[k as int]);
        let from: T = call2(side, a, true);
        let to: T = call2(side, b, false);
        fit_run(line, cubic, arc, piece, worst, centre, pts, cfg, a, b, from, to, 0, &mut out);
        k = k + 1;
    }
    out
}

// ---- Pruning ------------------------------------------------------------

/// Fewer commands, or as many with fewer handles.
pub open spec fn cheaper(a: (int, int), b: (int, int)) -> bool {
    a.0 < b.0 || (a.0 == b.0 && a.1 < b.1)
}

/// The corners that are left once those from the `i`th on have been looked at.
/// `cost` is the number of commands and handles that the run between two points
/// takes, `within` says whether fitting it in one stays within tolerance.
pub open spec fn pruned<
    C: Fn(usize, usize) -> (usize, usize),
    W: Fn(usize, usize) -> bool,
>(cost: C, within: W, kept: Seq<usize>, i: int) -> Seq<usize>
    decreases kept.len() - i,
{
    if i < 1 || i + 1 >= kept.len() {
        kept
    } else {
        let a = kept[i - 1];
        let c = kept[i];
        let b = kept[i + 1];
        let left = value2(cost, a, c);
        let right = value2(cost, c, b);
        let whole = value2(cost, a, b);
        if a < b && cheaper(
            (whole.0 as int, whole.1 as int),
            (left.0 + right.0, left.1 + right.1),
        ) && value2(within, a, b) {
            pruned(cost, within, kept.remove(i), i)
        } else {
            pruned(cost, within, kept, i + 1)
        }
    }
}

/// Drop corners that turn out not to be needed.
///
/// The detector errs slightly toward keeping corners, because a lost corner is
/// far more visible than a spare one. This pass takes each interior corner out
/// in turn and refits the merged run; if the result still meets tolerance and
/// uses fewer commands, the corner was not earning its keep.
pub fn prune_corners<
    C: Fn(usize, usize) -> (usize, usize),
    W: Fn(usize, usize) -> bool,
>(cost: &C, within: &W, corners: &Vec<usize>, merge_pass: bool) -> (kept: Vec<usize>)
    requires
        pure2(*cost),
        pure2(*within),
    ensures
        merge_pass ==> kept@ == pruned(*cost, *within, corners@, 1),
        !merge_pass ==> kept@ == corners@,
{
    let mut kept: Vec<usize> = Vec::new();
    let mut k: usize = 0;
    while k < corners.len()
        invariant
            k <= corners@.len(),
            kept@ == corners@.take(k as int),
        decreases corners@.len() - k,
    {
        kept.push(corners[k]);
        assert(corners@.take(k + 1) =~= corners@.take(k as int).push(corners@[k as int]));
        k = k + 1;
    }
    assert(corners@.take(k as int) =~= corners@);
    if !merge_pass {
        return kept;
    }
    let mut i: usize = 1;
    while i < kept.len() && i + 1 < kept.len()
        invariant
            i >= 1,
            i <= kept@.len() || kept@.len() < 2,
            pure2(*cost),
            pure2(*within),
            pruned(*cost, *within, kept@, i as int) == pruned(*cost, *within, corners@, 1),
        decreases kept@.len() - i,
    {
        // Removing a corner only changes the two runs either side of it, so
        // only those are looked at.
        let a: usize = kept[i - 1];
        let c: usize = kept[i];
        let b: usize = kept[i + 1];
        let mut drop: bool = false;
        if b > a {
            let left: (usize, usize) = call2(cost, a, c);
            let right: (usize, usize) = call2(cost, c, b);
            let whole: (usize, usize) = call2(cost, a, b);
            let segs: u128 = left.0 as u128 + right.0 as u128;
            let handles: u128 = left.1 as u128 + right.1 as u128;
            if (whole.0 as u128) < segs || (whole.0 as u128 == segs && (whole.1 as u128)
                < handles) {
                drop = call2(within, a, b);
            }
        }
        if drop {
            kept.remove(i);
        } else {
            i = i + 1;
        }
    }
    kept
}

/// Pruning only ever drops corners, and never the first or the last one.
pub proof fn law_pruning_keeps_the_ends<
    C: Fn(usize, usize) -> (usize, usize),
    W: Fn(usize, usize) -> bool,
>(cost: C, within: W, kept: Seq<usize>, i: int)
    requires
        i >= 1,
    ensures
        ({
            let out = pruned(cost, within, kept, i);
            &&& out.len() <= kept.len()
            &&& kept.len() > 0 ==> out.len() > 0 && out[0] == kept[0] && out.last() == kept.last()
            &&& forall|c: usize| out.contains(c) ==> #[trigger] kept.contains(c)
        }),
    decreases kept.len() - i,
{
    let out = pruned(cost, within, kept, i);
    if i + 1 < kept.len() {
        let a = kept[i - 1];
        let b = kept[i + 1];
        let left = value2(cost, a, kept[i]);
        let right = value2(cost, kept[i], b);
        let whole = value2(cost, a, b);
        if a < b && cheaper(
            (whole.0 as int, whole.1 as int),
            (left.0 + right.0, left.1 + right.1),
        ) && value2(within, a, b) {
            let less = kept.remove(i);
            law_pruning_keeps_the_ends(cost, within, less, i);
            assert(less[0] == kept[0] && less.last() == kept.last());
            assert forall|c: usize| out.contains(c) implies #[trigger] kept.contains(c) by {
                assert(less.contains(c));
                let q = choose|q: int| 0 <= q < less.len() && less[q] == c;
                if q < i {
                    assert(kept[q] == c);
                } else {
                    assert(kept[q + 1] == c);
                }
            }
        } else {
            law_pruning_keeps_the_ends(cost, within, kept, i + 1);
        }
    }
}

// ---- Duplicate points ---------------------------------------------------

/// The first `k` points without those that are not apart from the last one
/// kept.
pub open spec fn deduped<P, F: Fn(P, P) -> bool>(apart: F, pts: Seq<P>, k: int) -> Seq<P>
    decreases k,
{
    if k <= 0 {
        Seq::empty()
    } else {
        let rest = deduped(apart, pts, k - 1);
        if rest.len() == 0 || value2(apart, rest.last(), pts[k - 1]) {
            rest.push(pts[k - 1])
        } else {
            rest
        }
    }
}

/// Remove consecutive duplicate points, which otherwise produce zero-length
/// tangents downstream.
pub fn dedupe<P: Copy, F: Fn(P, P) -> bool>(apart: &F, pts: &Vec<P>) -> (out: Vec<P>)
    requires
        pure2(*apart),
    ensures
        out@ == deduped(*apart, pts@, pts@.len() as int),
{
    let mut out: Vec<P> = Vec::new();
    let mut k: usize = 0;
    assert(out@ =~= deduped(*apart, pts@, 0));
    while k < pts.len()
        invariant
            k <= pts@.len(),
            pure2(*apart),
            out@ == deduped(*apart, pts@, k as int),
        decreases pts@.len() - k,
    {
        let m: usize = out.len();
        if m == 0 || call2(apart, out[m - 1], pts[k]) {
            out.push(pts[k]);
        }
        k = k + 1;
    }
    out
}

/// The place among the de-duplicated points that has been reached once the first
/// `k` original points have been looked at: it moves on when the next
/// de-duplicated point lies on the original one.
pub open spec fn reached<P, F: Fn(P, P) -> bool>(
    on: F,
    orig: Seq<P>,
    thin: Seq<P>,
    k: int,
) -> int
    decreases k,
{
    if k <= 0 {
        0
    } else {
        let j = reached(on, orig, thin, k - 1);
        if j + 1 < thin.len() && value2(on, thin[j + 1], orig[k - 1]) {
            j + 1
        } else {
            j
        }
    }
}

/// De-duplicated point `v` is where some corner went.
pub open spec fn corner_went_to<P, F: Fn(P, P) -> bool>(
    on: F,
    orig: Seq<P>,
    thin: Seq<P>,
    corners: Seq<usize>,
    v: usize,
) -> bool {
    exists|q: int| #![trigger corners[q]]
        0 <= q < corners.len() && corners[q] < orig.len() && reached(
            on,
            orig,
            thin,
            corners[q] + 1,
        ) == v
}

/// `out` are the corners of `orig` as indices into the de-duplicated points.
pub open spec fn are_remapped<P, F: Fn(P, P) -> bool>(
    on: F,
    orig: Seq<P>,
    thin: Seq<P>,
    corners: Seq<usize>,
    out: Seq<usize>,
) -> bool {
    if orig.len() == thin.len() {
        out == corners
    } else {
        &&& ascending(out)
        &&& forall|v: usize|
            #[trigger] out.contains(v) <==> corner_went_to(on, orig, thin, corners, v)
    }
}

/// Translate corner indices from a list of points to the de-duplicated one. `on`
/// says whether a de-duplicated point lies on an original one.
pub fn remap_corners<P: Copy, F: Fn(P, P) -> bool>(
    on: &F,
    orig: &Vec<P>,
    thin: &Vec<P>,
    corners: &Vec<usize>,
) -> (out: Vec<usize>)
    requires
        pure2(*on),
        thin@.len() >= 1,
    ensures
        are_remapped(*on, orig@, thin@, corners@, out@),
{
    let n: usize = orig.len();
    let m: usize = thin.len();
    let mut out: Vec<usize> = Vec::new();
    if n == m {
        let mut k: usize = 0;
        while k < corners.len()
            invariant
                k <= corners@.len(),
                out@ == corners@.take(k as int),
            decreases corners@.len() - k,
        {
            out.push(corners[k]);
            assert(corners@.take(k + 1) =~= corners@.take(k as int).push(corners@[k as int]));
            k = k + 1;
        }
        assert(corners@.take(k as int) =~= corners@);
        return out;
    }
    let mut map: Vec<usize> = Vec::new();
    let mut j: usize = 0;
    let mut i: usize = 0;
    while i < n
        invariant
            i <= n,
            n == orig@.len(),
            m == thin@.len(),
            m >= 1,
            j < m,
            pure2(*on),
            j == reached(*on, orig@, thin@, i as int),
            map@.len() == i,
            forall|q: int|
                0 <= q < i ==> #[trigger] map@[q] == reached(*on, orig@, thin@, q + 1) && map@[q] < m,
        decreases n - i,
    {
        if j < m - 1 && call2(on, thin[j + 1], orig[i]) {
            j = j + 1;
        }
        map.push(j);
        i = i + 1;
    }
    let mut marked: Vec<bool> = Vec::new();
    let mut i: usize = 0;
    while i < m
        invariant
            i <= m,
            marked@.len() == i,
            forall|q: int| 0 <= q < i ==> !#[trigger] marked@[q],
        decreases m - i,
    {
        marked.push(false);
        i = i + 1;
    }
    let mut k: usize = 0;
    assert forall|v: int| 0 <= v < m implies #[trigger] marked@[v] == corner_went_to(
        *on, orig@, thin@,
        corners@.take(0),
        v as usize,
    ) by {
    }
    while k < corners.len()
        invariant
            k <= corners@.len(),
            n == orig@.len(),
            m == thin@.len(),
            map@.len() == n,
            marked@.len() == m,
            forall|q: int|
                0 <= q < n ==> #[trigger] map@[q] == reached(*on, orig@, thin@, q + 1) && map@[q] < m,
            forall|v: int|
                0 <= v < m ==> #[trigger] marked@[v] == corner_went_to(
                    *on, orig@, thin@,
                    corners@.take(k as int),
                    v as usize,
                ),
        decreases corners@.len() - k,
    {
        let c: usize = corners[k];
        let ghost before = marked@;
        if c < n {
            assert(map@[c as int] < m);
            marked.set(map[c], true);
        }
        proof {
            let less = corners@.take(k as int);
            let more = corners@.take(k + 1);
            assert(more =~= less.push(c));
            assert forall|v: int| 0 <= v < m implies #[trigger] marked@[v] == corner_went_to(
                *on, orig@, thin@,
                more,
                v as usize,
            ) by {
                assert(before[v] == corner_went_to(*on, orig@, thin@, less, v as usize));
                if before[v] {
                    let q = choose|q: int| #![trigger less[q]]
                        0 <= q < less.len() && less[q] < n && reached(*on, orig@, thin@, less[q] + 1)
                            == v;
                    assert(more[q] == less[q]);
                }
                if c < n && map@[c as int] == v {
                    assert(more[k as int] == c);
                }
                if corner_went_to(*on, orig@, thin@, more, v as usize) {
                    let q = choose|q: int| #![trigger more[q]]
                        0 <= q < more.len() && more[q] < n && reached(*on, orig@, thin@, more[q] + 1)
                            == v;
                    if q < k {
                        assert(less[q] == more[q]);
                    } else {
                        assert(map@[c as int] == v);
                    }
                }
            }
        }
        k = k + 1;
    }
    assert(corners@.take(k as int) =~= corners@);
    let out: Vec<usize> = marked_indices(&marked);
    proof {
        assert forall|u: usize| #[trigger] out@.contains(u) <==> corner_went_to(
            *on, orig@, thin@,
            corners@,
            u,
        ) by {
            if corner_went_to(*on, orig@, thin@, corners@, u) {
                let q = choose|q: int| #![trigger corners@[q]]
                    0 <= q < corners@.len() && corners@[q] < n && reached(
                        *on,
                        orig@,
                        thin@,
                        corners@[q] + 1,
                    ) == u;
                assert(map@[corners@[q] as int] == u);
            }
        }
    }
    out
}

// ---- Corners and points that are left -----------------------------------

/// A corner goes where the run through it takes fewer commands than the two runs that meet
/// at it, or as many with fewer handles, and stays within tolerance; then the next one is
/// looked at from the same place on. Otherwise it stays.
pub proof fn law_corners_go_where_that_is_cheaper<
    C: Fn(usize, usize) -> (usize, usize),
    W: Fn(usize, usize) -> bool,
>(cost: C, within: W, kept: Seq<usize>, i: int)
    requires
        1 <= i < kept.len() - 1,
        kept[i - 1] < kept[i + 1],
    ensures
        ({
            let (a, c, b) = (kept[i - 1], kept[i], kept[i + 1]);
            let commands = value2(cost, a, c).0 + value2(cost, c, b).0;
            let handles = value2(cost, a, c).1 + value2(cost, c, b).1;
            let whole = value2(cost, a, b);
            let pays = whole.0 < commands || (whole.0 == commands && whole.1 < handles);
            &&& pays && value2(within, a, b) ==> pruned(cost, within, kept, i) == pruned(
                cost,
                within,
                kept.take(i) + kept.skip(i + 1),
                i,
            )
            &&& !pays || !value2(within, a, b) ==> pruned(cost, within, kept, i) == pruned(
                cost,
                within,
                kept,
                i + 1,
            )
        }),
{
    assert(kept.remove(i) =~= kept.take(i) + kept.skip(i + 1));
}

/// Points that follow one another after de-duplication are apart, the first point stays, a
/// point that is apart from the last one kept is kept, and a contour whose neighbours are
/// all apart stays as it is.
pub proof fn law_points_that_are_left_are_apart<P, F: Fn(P, P) -> bool>(
    apart: F,
    pts: Seq<P>,
    k: int,
)
    requires
        0 < k <= pts.len(),
    ensures
        deduped(apart, pts, k).len() > 0,
        deduped(apart, pts, k)[0] == pts[0],
        forall|i: int|
            0 <= i < deduped(apart, pts, k).len() - 1 ==> value2(
                apart,
                #[trigger] deduped(apart, pts, k)[i],
                deduped(apart, pts, k)[i + 1],
            ),
        deduped(apart, pts, k).last() == pts[k - 1] || !value2(
            apart,
            deduped(apart, pts, k).last(),
            pts[k - 1],
        ),
        (forall|i: int| 0 <= i < k - 1 ==> value2(apart, #[trigger] pts[i], pts[i + 1]))
            ==> deduped(apart, pts, k) == pts.take(k),
    decreases k,
{
    let all = deduped(apart, pts, k);
    if k > 1 {
        law_points_that_are_left_are_apart(apart, pts, k - 1);
        let rest = deduped(apart, pts, k - 1);
        assert forall|i: int| 0 <= i < all.len() - 1 implies value2(
            apart,
            #[trigger] all[i],
            all[i + 1],
        ) by {
            if i + 1 < rest.len() {
                assert(all[i] == rest[i] && all[i + 1] == rest[i + 1]);
            }
        }
        if forall|i: int| 0 <= i < k - 1 ==> value2(apart, #[trigger] pts[i], pts[i + 1]) {
            assert forall|i: int| 0 <= i < k - 2 implies value2(
                apart,
                #[trigger] pts[i],
                pts[i + 1],
            ) by {}
            let p = pts[k - 2];
            assert(rest == pts.take(k - 1));
            assert(rest.last() == pts[k - 2]);
            assert(all =~= pts.take(k));
        }
    } else {
        assert(deduped(apart, pts, 0).len() == 0);
        assert(all =~= pts.take(1));
    }
}

/// Along the original points the place among those that are left moves on by one exactly
/// where the next of them lies on the original point.
pub proof fn law_places_move_on_with_the_points<P, F: Fn(P, P) -> bool>(
    on: F,
    orig: Seq<P>,
    thin: Seq<P>,
    k: int,
)
    requires
        0 <= k < orig.len(),
        thin.len() > 0,
    ensures
        0 <= reached(on, orig, thin, k) < thin.len(),
        reached(on, orig, thin, 0) == 0,
        reached(on, orig, thin, k + 1) == reached(on, orig, thin, k) + 1 || reached(
            on,
            orig,
            thin,
            k + 1,
        ) == reached(on, orig, thin, k),
        reached(on, orig, thin, k + 1) == reached(on, orig, thin, k) + 1 <==> reached(
            on,
            orig,
            thin,
            k,
        ) < thin.len() - 1 && value2(on, thin[reached(on, orig, thin, k) + 1], orig[k]),
    decreases k,
{
    if k > 0 {
        law_places_move_on_with_the_points(on, orig, thin, k - 1);
    }
}

} // verus!
