//! Smoothing of contours between their corners.
//!
//! Plain Laplacian smoothing shrinks: run it on a circle and the circle gets
//! smaller every pass. Taubin smoothing alternates a shrinking step with a
//! slightly larger inflating step, so noise still decays but the overall size is
//! preserved.

use crate::corners::{distinct_vertices, next_corner, plan_smoothing, run_between, Smoothing};
use crate::order::ascending;
use crate::pure::{call4, pure4, value4};
use vstd::prelude::*;

verus! {

/// One step over an open run of points: each moves with regard to its two
/// neighbours, and the ends stay. `relax` moves a point, inward or, to inflate,
/// outward.
pub open spec fn swept<P, FX: Fn(P, P, P, bool) -> P>(
    relax: FX,
    run: Seq<P>,
    inflate: bool,
) -> Seq<P> {
    Seq::new(
        run.len(),
        |k: int|
            if 0 < k < run.len() - 1 {
                value4(relax, run[k - 1], run[k], run[k + 1], inflate)
            } else {
                run[k]
            },
    )
}

/// `passes` passes over an open run of points.
pub open spec fn taubin<P, FX: Fn(P, P, P, bool) -> P>(
    relax: FX,
    run: Seq<P>,
    passes: int,
) -> Seq<P>
    decreases passes,
{
    if passes <= 0 {
        run
    } else {
        swept(relax, swept(relax, taubin(relax, run, passes - 1), false), true)
    }
}

/// One step over a cycle of points.
pub open spec fn swept_round<P, FX: Fn(P, P, P, bool) -> P>(
    relax: FX,
    ring: Seq<P>,
    inflate: bool,
) -> Seq<P> {
    let m = ring.len() as int;
    Seq::new(
        ring.len(),
        |k: int|
            value4(
                relax,
                ring[if k == 0 {
                    m - 1
                } else {
                    k - 1
                }],
                ring[k],
                ring[if k == m - 1 {
                    0
                } else {
                    k + 1
                }],
                inflate,
            ),
    )
}

/// `passes` passes over a cycle of points.
pub open spec fn taubin_round<P, FX: Fn(P, P, P, bool) -> P>(
    relax: FX,
    ring: Seq<P>,
    passes: int,
) -> Seq<P>
    decreases passes,
{
    if passes <= 0 {
        ring
    } else {
        swept_round(relax, swept_round(relax, taubin_round(relax, ring, passes - 1), false), true)
    }
}

/// The points that `run` lists.
pub open spec fn gathered<P>(pts: Seq<P>, run: Seq<usize>) -> Seq<P> {
    Seq::new(run.len(), |k: int| pts[run[k] as int])
}

/// `pts` with the first `k` points that `run` lists replaced.
pub open spec fn written<P>(pts: Seq<P>, run: Seq<usize>, values: Seq<P>, k: int) -> Seq<P>
    decreases k,
{
    if k <= 0 {
        pts
    } else {
        written(pts, run, values, k - 1).update(run[k - 1] as int, values[k - 1])
    }
}

/// `pts` with the inner points of one run smoothed.
pub open spec fn run_smoothed<P, FX: Fn(P, P, P, bool) -> P>(
    relax: FX,
    pts: Seq<P>,
    run: Seq<usize>,
    passes: int,
) -> Seq<P> {
    written(pts, run, taubin(relax, gathered(pts, run), passes), run.len() as int)
}

/// The number of runs between corners.
pub open spec fn run_count(corners: Seq<usize>, closed: bool) -> int {
    if closed || corners.len() == 0 {
        corners.len() as int
    } else {
        corners.len() - 1
    }
}

/// `pts` with the first `k` runs between corners smoothed, one after the other.
pub open spec fn runs_smoothed<P, FX: Fn(P, P, P, bool) -> P>(
    relax: FX,
    pts: Seq<P>,
    corners: Seq<usize>,
    passes: int,
    k: int,
) -> Seq<P>
    decreases k,
{
    if k <= 0 {
        pts
    } else {
        run_smoothed(
            relax,
            runs_smoothed(relax, pts, corners, passes, k - 1),
            run_between(
                corners[k - 1] as int,
                next_corner(corners, k - 1) as int,
                pts.len() - 1,
            ),
            passes,
        )
    }
}

/// A contour smoothed between its corners. A closed one without corners is
/// smoothed all the way round, unless it is too short; its last point repeats
/// its first.
pub open spec fn contour_smoothed<P, FX: Fn(P, P, P, bool) -> P>(
    relax: FX,
    pts: Seq<P>,
    corners: Seq<usize>,
    closed: bool,
    passes: int,
) -> Seq<P> {
    let n = pts.len() as int;
    if closed && corners.len() == 0 {
        if n < 4 {
            pts
        } else {
            let ring = taubin_round(relax, pts.take(n - 1), passes);
            ring.push(ring[0])
        }
    } else {
        let all = runs_smoothed(relax, pts, corners, passes, run_count(corners, closed));
        if closed {
            all.update(n - 1, all[0])
        } else {
            all
        }
    }
}

proof fn lemma_taubin<P, FX: Fn(P, P, P, bool) -> P>(relax: FX, run: Seq<P>, passes: int)
    ensures
        taubin(relax, run, passes).len() == run.len(),
        run.len() > 0 ==> taubin(relax, run, passes)[0] == run[0],
        run.len() > 0 ==> taubin(relax, run, passes).last() == run.last(),
    decreases passes,
{
    if passes > 0 {
        lemma_taubin(relax, run, passes - 1);
    }
}

proof fn lemma_round_len<P, FX: Fn(P, P, P, bool) -> P>(relax: FX, ring: Seq<P>, passes: int)
    ensures
        taubin_round(relax, ring, passes).len() == ring.len(),
    decreases passes,
{
    if passes > 0 {
        lemma_round_len(relax, ring, passes - 1);
    }
}

fn sweep<P: Copy, FX: Fn(P, P, P, bool) -> P>(relax: &FX, run: &Vec<P>, inflate: bool) -> (out:
    Vec<P>)
    requires
        pure4(*relax),
    ensures
        out@ == swept(*relax, run@, inflate),
{
    let n: usize = run.len();
    let mut out: Vec<P> = Vec::new();
    let mut k: usize = 0;
    while k < n
        invariant
            pure4(*relax),
            k <= n,
            n == run@.len(),
            out@.len() == k,
            forall|j: int| 0 <= j < k ==> #[trigger] out@[j] == swept(*relax, run@, inflate)[j],
        decreases n - k,
    {
        if k > 0 && k < n - 1 {
            out.push(call4(relax, run[k - 1], run[k], run[k + 1], inflate));
        } else {
            out.push(run[k]);
        }
        k = k + 1;
    }
    assert(out@ =~= swept(*relax, run@, inflate));
    out
}

fn sweep_round<P: Copy, FX: Fn(P, P, P, bool) -> P>(
    relax: &FX,
    ring: &Vec<P>,
    inflate: bool,
) -> (out: Vec<P>)
    requires
        pure4(*relax),
    ensures
        out@ == swept_round(*relax, ring@, inflate),
{
    let m: usize = ring.len();
    let mut out: Vec<P> = Vec::new();
    let mut k: usize = 0;
    while k < m
        invariant
            pure4(*relax),
            k <= m,
            m == ring@.len(),
            out@.len() == k,
            forall|j: int|
                0 <= j < k ==> #[trigger] out@[j] == swept_round(*relax, ring@, inflate)[j],
        decreases m - k,
    {
        let before: usize = if k == 0 {
            m - 1
        } else {
            k - 1
        };
        let after: usize = if k == m - 1 {
            0
        } else {
            k + 1
        };
        out.push(call4(relax, ring[before], ring[k], ring[after], inflate));
        k = k + 1;
    }
    assert(out@ =~= swept_round(*relax, ring@, inflate));
    out
}

/// Taubin smoothing over the points that `run` lists, its ends held fixed.
fn taubin_run<P: Copy, FX: Fn(P, P, P, bool) -> P>(
    relax: &FX,
    pts: &mut Vec<P>,
    run: &Vec<usize>,
    passes: usize,
)
    requires
        pure4(*relax),
        forall|k: int| 0 <= k < run@.len() ==> (#[trigger] run@[k]) < old(pts)@.len(),
    ensures
        final(pts)@ == run_smoothed(*relax, old(pts)@, run@, passes as int),
        final(pts)@.len() == old(pts)@.len(),
{
    let ghost pts0 = pts@;
    let mut buf: Vec<P> = Vec::new();
    let mut k: usize = 0;
    while k < run.len()
        invariant
            k <= run@.len(),
            pts@ == pts0,
            forall|j: int| 0 <= j < run@.len() ==> (#[trigger] run@[j]) < pts0.len(),
            buf@.len() == k,
            forall|j: int| 0 <= j < k ==> #[trigger] buf@[j] == pts0[run@[j] as int],
        decreases run@.len() - k,
    {
        buf.push(pts[run[k]]);
        k = k + 1;
    }
    let ghost start = gathered(pts0, run@);
    assert(buf@ =~= start);
    let mut pass: usize = 0;
    while pass < passes
        invariant
            pure4(*relax),
            pass <= passes,
            buf@ == taubin(*relax, start, pass as int),
        decreases passes - pass,
    {
        let shrunk: Vec<P> = sweep(relax, &buf, false);
        buf = sweep(relax, &shrunk, true);
        pass = pass + 1;
    }
    proof {
        lemma_taubin(*relax, start, passes as int);
    }
    let mut k: usize = 0;
    while k < run.len()
        invariant
            k <= run@.len(),
            buf@.len() == run@.len(),
            pts@.len() == pts0.len(),
            forall|j: int| 0 <= j < run@.len() ==> (#[trigger] run@[j]) < pts0.len(),
            pts@ == written(pts0, run@, buf@, k as int),
        decreases run@.len() - k,
    {
        let v: P = buf[k];
        pts.set(run[k], v);
        k = k + 1;
    }
}

/// Cyclic Taubin smoothing for a closed contour with no corners at all.
fn taubin_loop<P: Copy, FX: Fn(P, P, P, bool) -> P>(relax: &FX, pts: &Vec<P>, passes: usize) -> (out:
    Vec<P>)
    requires
        pure4(*relax),
        pts@.len() >= 4,
    ensures
        out@ == contour_smoothed(*relax, pts@, Seq::<usize>::empty(), true, passes as int),
{
    let n: usize = pts.len();
    let mut ring: Vec<P> = Vec::new();
    let mut k: usize = 0;
    while k < n - 1
        invariant
            k <= n - 1,
            n == pts@.len(),
            n >= 4,
            ring@ == pts@.take(k as int),
        decreases n - k,
    {
        ring.push(pts[k]);
        assert(pts@.take(k + 1) =~= pts@.take(k as int).push(pts@[k as int]));
        k = k + 1;
    }
    let ghost start = ring@;
    let mut pass: usize = 0;
    while pass < passes
        invariant
            pure4(*relax),
            pass <= passes,
            ring@ == taubin_round(*relax, start, pass as int),
        decreases passes - pass,
    {
        let shrunk: Vec<P> = sweep_round(relax, &ring, false);
        ring = sweep_round(relax, &shrunk, true);
        pass = pass + 1;
    }
    proof {
        lemma_round_len(*relax, start, passes as int);
    }
    let first: P = ring[0];
    ring.push(first);
    ring
}

/// The points between two corners are points of the contour.
proof fn lemma_run_in_range(corners: Seq<usize>, n: int, closed: bool, k: int)
    requires
        n >= 1,
        n <= usize::MAX,
        ascending(corners),
        forall|j: int|
            0 <= j < corners.len() ==> (#[trigger] corners[j]) < distinct_vertices(n, closed),
        0 <= k < run_count(corners, closed),
    ensures
        ({
            let run = run_between(corners[k] as int, next_corner(corners, k) as int, n - 1);
            forall|q: int| 0 <= q < run.len() ==> (#[trigger] run[q]) < n
        }),
{
    assert(corners[k] < distinct_vertices(n, closed));
    if k + 1 < corners.len() {
        assert(corners[k + 1] < distinct_vertices(n, closed));
        assert(corners[k] < corners[k + 1]);
    } else {
        assert(corners[0] < distinct_vertices(n, closed));
        if k > 0 {
            assert(corners[0] < corners[k]);
        }
    }
}

/// Smooth a contour between its corners.
pub fn smooth_contour<P: Copy, FX: Fn(P, P, P, bool) -> P>(
    relax: &FX,
    pts: Vec<P>,
    corners: &Vec<usize>,
    closed: bool,
    passes: usize,
) -> (out: Vec<P>)
    requires
        pure4(*relax),
        pts@.len() >= 1,
        ascending(corners@),
        forall|k: int|
            0 <= k < corners@.len() ==> (#[trigger] corners@[k]) < distinct_vertices(
                pts@.len() as int,
                closed,
            ),
    ensures
        out@ == contour_smoothed(*relax, pts@, corners@, closed, passes as int),
        out@.len() == pts@.len(),
{
    let n: usize = pts.len();
    let ghost pts0 = pts@;
    match plan_smoothing(corners, n, closed) {
        Smoothing::Loop => {
            assert(corners@ =~= Seq::<usize>::empty());
            if n < 4 {
                return pts;
            }
            proof {
                lemma_round_len(*relax, pts0.take(n - 1), passes as int);
            }
            taubin_loop(relax, &pts, passes)
        },
        Smoothing::Runs(runs) => {
            let mut out: Vec<P> = pts;
            let mut k: usize = 0;
            while k < runs.len()
                invariant
                    pure4(*relax),
                    k <= runs@.len(),
                    n >= 1,
                    n == pts0.len(),
                    ascending(corners@),
                    forall|j: int|
                        0 <= j < corners@.len() ==> (#[trigger] corners@[j]) < distinct_vertices(
                            n as int,
                            closed,
                        ),
                    runs@.len() == run_count(corners@, closed),
                    forall|j: int|
                        0 <= j < runs@.len() ==> (#[trigger] runs@[j])@ == run_between(
                            corners@[j] as int,
                            next_corner(corners@, j) as int,
                            n - 1,
                        ),
                    out@.len() == n,
                    out@ == runs_smoothed(*relax, pts0, corners@, passes as int, k as int),
                decreases runs@.len() - k,
            {
                proof {
                    lemma_run_in_range(corners@, n as int, closed, k as int);
                    assert(runs@[k as int]@ == run_between(
                        corners@[k as int] as int,
                        next_corner(corners@, k as int) as int,
                        n - 1,
                    ));
                }
                taubin_run(relax, &mut out, &runs[k], passes);
                k = k + 1;
            }
            if closed {
                let first: P = out[0];
                out.set(n - 1, first);
            }
            out
        },
    }
}

// ---- Corners stay put ---------------------------------------------------

/// What is written keeps a point that is not an inner point of the run.
proof fn lemma_written_keeps<P>(pts: Seq<P>, run: Seq<usize>, values: Seq<P>, k: int, j: int)
    requires
        0 <= k <= run.len(),
        values.len() == run.len(),
        0 <= j < pts.len(),
        forall|q: int| 0 <= q < run.len() ==> (#[trigger] run[q]) < pts.len(),
        forall|q: int| 0 < q < run.len() - 1 ==> (#[trigger] run[q]) != j,
        run.len() > 0 ==> values[0] == pts[run[0] as int],
        run.len() > 0 ==> values.last() == pts[run.last() as int],
    ensures
        written(pts, run, values, k).len() == pts.len(),
        written(pts, run, values, k)[j] == pts[j],
    decreases k,
{
    if k > 0 {
        lemma_written_keeps(pts, run, values, k - 1, j);
        assert(run[k - 1] < pts.len());
        if run[k - 1] == j {
            assert(k - 1 == 0 || k - 1 == run.len() - 1);
        }
    }
}

/// No corner lies strictly inside the run between two corners that follow one
/// another.
proof fn lemma_no_corner_inside(corners: Seq<usize>, n: int, closed: bool, k: int, c: int)
    requires
        n >= 1,
        n <= usize::MAX,
        ascending(corners),
        forall|j: int|
            0 <= j < corners.len() ==> (#[trigger] corners[j]) < distinct_vertices(n, closed),
        0 <= k < run_count(corners, closed),
        0 <= c < corners.len(),
    ensures
        ({
            let run = run_between(corners[k] as int, next_corner(corners, k) as int, n - 1);
            forall|q: int| 0 < q < run.len() - 1 ==> (#[trigger] run[q]) != corners[c]
        }),
{
    let a = corners[k] as int;
    let b = next_corner(corners, k) as int;
    let run = run_between(a, b, n - 1);
    assert(corners[k] < distinct_vertices(n, closed));
    assert(corners[c] < distinct_vertices(n, closed));
    assert(corners[0] < distinct_vertices(n, closed));
    if c < k {
        assert(corners[c] < corners[k]);
    }
    if c > k {
        assert(corners[k] < corners[c]);
    }
    if k + 1 < corners.len() {
        assert(corners[k] < corners[k + 1]);
        if c < k + 1 {
            assert(corners[c] < corners[k + 1]);
        }
        if c > k + 1 {
            assert(corners[k + 1] < corners[c]);
        }
    } else {
        if c > 0 {
            assert(corners[0] < corners[c]);
        }
        if k > 0 {
            assert(corners[0] < corners[k]);
        }
    }
}

proof fn lemma_runs_keep<P, FX: Fn(P, P, P, bool) -> P>(
    relax: FX,
    pts: Seq<P>,
    corners: Seq<usize>,
    closed: bool,
    passes: int,
    k: int,
    c: int,
)
    requires
        1 <= pts.len() <= usize::MAX,
        ascending(corners),
        forall|j: int|
            0 <= j < corners.len() ==> (#[trigger] corners[j]) < distinct_vertices(
                pts.len() as int,
                closed,
            ),
        0 <= k <= run_count(corners, closed),
        0 <= c < corners.len(),
    ensures
        runs_smoothed(relax, pts, corners, passes, k).len() == pts.len(),
        runs_smoothed(relax, pts, corners, passes, k)[corners[c] as int] == pts[corners[c] as int],
    decreases k,
{
    if k > 0 {
        lemma_runs_keep(relax, pts, corners, closed, passes, k - 1, c);
        let n = pts.len() as int;
        let before = runs_smoothed(relax, pts, corners, passes, k - 1);
        let run = run_between(corners[k - 1] as int, next_corner(corners, k - 1) as int, n - 1);
        lemma_run_in_range(corners, n, closed, k - 1);
        lemma_no_corner_inside(corners, n, closed, k - 1, c);
        let start = gathered(before, run);
        lemma_taubin(relax, start, passes);
        assert(corners[c] < distinct_vertices(n, closed));
        lemma_written_keeps(
            before,
            run,
            taubin(relax, start, passes),
            run.len() as int,
            corners[c] as int,
        );
    }
}

/// Corners never move, however hard the contour between them is smoothed. On an
/// open contour that holds of its two ends, which are junctions.
pub proof fn law_corners_never_move<P, FX: Fn(P, P, P, bool) -> P>(
    relax: FX,
    pts: Seq<P>,
    corners: Seq<usize>,
    closed: bool,
    passes: int,
    c: int,
)
    requires
        1 <= pts.len() <= usize::MAX,
        ascending(corners),
        forall|j: int|
            0 <= j < corners.len() ==> (#[trigger] corners[j]) < distinct_vertices(
                pts.len() as int,
                closed,
            ),
        0 <= c < corners.len(),
    ensures
        contour_smoothed(relax, pts, corners, closed, passes)[corners[c] as int]
            == pts[corners[c] as int],
{
    lemma_runs_keep(relax, pts, corners, closed, passes, run_count(corners, closed), c);
    assert(corners[c] < distinct_vertices(pts.len() as int, closed));
}

// ---- What smoothing does ------------------------------------------------

/// Whether `after` is `before` after one pass over an open run, by way of `mid`: every
/// inner point is moved inward between its neighbours as they were, and then outward
/// between its neighbours as they are now. The ends stay.
pub open spec fn is_pass<P, FX: Fn(P, P, P, bool) -> P>(
    relax: FX,
    before: Seq<P>,
    mid: Seq<P>,
    after: Seq<P>,
) -> bool {
    let n = before.len();
    &&& mid.len() == n
    &&& after.len() == n
    &&& after[0] == before[0] && mid[0] == before[0]
    &&& after[n - 1] == before[n - 1] && mid[n - 1] == before[n - 1]
    &&& forall|k: int|
        0 < k < n - 1 ==> #[trigger] mid[k] == value4(
            relax,
            before[k - 1],
            before[k],
            before[k + 1],
            false,
        )
    &&& forall|k: int|
        0 < k < n - 1 ==> #[trigger] after[k] == value4(relax, mid[k - 1], mid[k], mid[k + 1], true)
}

/// Whether `after` is `before` after one pass over a cycle, by way of `mid`. The last point
/// of a cycle repeats its first.
pub open spec fn is_round_pass<P, FX: Fn(P, P, P, bool) -> P>(
    relax: FX,
    before: Seq<P>,
    mid: Seq<P>,
    after: Seq<P>,
) -> bool {
    let n = before.len();
    &&& mid.len() == n
    &&& after.len() == n
    &&& mid[n - 1] == mid[0]
    &&& after[n - 1] == after[0]
    &&& mid[0] == value4(relax, before[n - 2], before[0], before[1], false)
    &&& after[0] == value4(relax, mid[n - 2], mid[0], mid[1], true)
    &&& forall|k: int|
        0 < k < n - 1 ==> #[trigger] mid[k] == value4(
            relax,
            before[k - 1],
            before[k],
            before[k + 1],
            false,
        )
    &&& forall|k: int|
        0 < k < n - 1 ==> #[trigger] after[k] == value4(relax, mid[k - 1], mid[k], mid[k + 1], true)
}

/// The two ends of an open contour of `n` points.
pub open spec fn both_ends(n: int) -> Seq<usize> {
    seq![0usize, (n - 1) as usize]
}

/// An open contour without inner corners is smoothed as one run.
proof fn lemma_one_run<P, FX: Fn(P, P, P, bool) -> P>(relax: FX, pts: Seq<P>, passes: int)
    requires
        2 <= pts.len() <= usize::MAX,
    ensures
        contour_smoothed(relax, pts, both_ends(pts.len() as int), false, passes) == taubin(
            relax,
            pts,
            passes,
        ),
{
    let n = pts.len() as int;
    let corners = both_ends(n);
    let run = run_between(corners[0] as int, next_corner(corners, 0) as int, n - 1);
    assert(run.len() == n);
    assert forall|k: int| 0 <= k < n implies (#[trigger] run[k]) == k by {}
    assert(gathered(pts, run) =~= pts);
    lemma_taubin(relax, pts, passes);
    let values = taubin(relax, pts, passes);
    lemma_written_all(pts, run, values, n);
    assert(runs_smoothed(relax, pts, corners, passes, 0) == pts);
    assert(runs_smoothed(relax, pts, corners, passes, 1) == written(pts, run, values, n));
    assert(written(pts, run, values, n) =~= values);
}

proof fn lemma_written_all<P>(pts: Seq<P>, run: Seq<usize>, values: Seq<P>, k: int)
    requires
        0 <= k <= pts.len(),
        run.len() == pts.len(),
        values.len() == pts.len(),
        forall|q: int| 0 <= q < run.len() ==> (#[trigger] run[q]) == q,
    ensures
        written(pts, run, values, k).len() == pts.len(),
        forall|j: int| 0 <= j < k ==> #[trigger] written(pts, run, values, k)[j] == values[j],
    decreases k,
{
    if k > 0 {
        lemma_written_all(pts, run, values, k - 1);
        assert(run[k - 1] == k - 1);
    }
}

/// One pass more over an open contour without inner corners shrinks it and then inflates
/// it; no pass leaves it as it is.
pub proof fn law_a_pass_shrinks_and_inflates<P, FX: Fn(P, P, P, bool) -> P>(
    relax: FX,
    pts: Seq<P>,
    passes: int,
) -> (mid: Seq<P>)
    requires
        2 <= pts.len() <= usize::MAX,
        passes >= 0,
    ensures
        contour_smoothed(relax, pts, both_ends(pts.len() as int), false, 0) == pts,
        is_pass(
            relax,
            contour_smoothed(relax, pts, both_ends(pts.len() as int), false, passes),
            mid,
            contour_smoothed(relax, pts, both_ends(pts.len() as int), false, passes + 1),
        ),
{
    lemma_one_run(relax, pts, 0);
    lemma_one_run(relax, pts, passes);
    lemma_one_run(relax, pts, passes + 1);
    lemma_taubin(relax, pts, passes);
    swept(relax, taubin(relax, pts, passes), false)
}

/// The same of a closed contour without corners, all the way round. One of fewer than
/// four points is left as it is.
pub proof fn law_a_round_pass_shrinks_and_inflates<P, FX: Fn(P, P, P, bool) -> P>(
    relax: FX,
    pts: Seq<P>,
    passes: int,
) -> (mid: Seq<P>)
    requires
        1 <= pts.len() <= usize::MAX,
        pts[0] == pts.last(),
        passes >= 0,
    ensures
        contour_smoothed(relax, pts, seq![], true, 0) == pts,
        pts.len() < 4 ==> contour_smoothed(relax, pts, seq![], true, passes) == pts,
        pts.len() >= 4 ==> is_round_pass(
            relax,
            contour_smoothed(relax, pts, seq![], true, passes),
            mid,
            contour_smoothed(relax, pts, seq![], true, passes + 1),
        ),
{
    let n = pts.len() as int;
    if n < 4 {
        pts
    } else {
        let ring = pts.take(n - 1);
        assert(ring.push(ring[0]) =~= pts);
        lemma_round_len(relax, ring, passes);
        let now = taubin_round(relax, ring, passes);
        let half = swept_round(relax, now, false);
        half.push(half[0])
    }
}

/// Where the `q`-th point from corner `a` on lies on a contour of `n` points.
pub open spec fn along(a: int, q: int, n: int, closed: bool) -> int {
    if closed && a + q >= n - 1 {
        a + q - (n - 1)
    } else {
        a + q
    }
}

/// How many points there are from corner `a` on to corner `b`, both of them counted. On a
/// closed contour a corner that does not come later is reached through the seam.
pub open spec fn steps_between(a: int, b: int, n: int) -> nat {
    if b > a {
        (b - a + 1) as nat
    } else {
        (n - 1 - a + b + 1) as nat
    }
}

/// The part of a contour from corner `a` on to corner `b`.
pub open spec fn stretch<P>(pts: Seq<P>, a: int, b: int, closed: bool) -> Seq<P> {
    Seq::new(
        steps_between(a, b, pts.len() as int),
        |q: int| pts[along(a, q, pts.len() as int, closed)],
    )
}

/// What is written at a place that the run lists once is its value.
proof fn lemma_written_once<P>(pts: Seq<P>, run: Seq<usize>, values: Seq<P>, k: int, q: int)
    requires
        0 <= q < k <= run.len(),
        values.len() == run.len(),
        forall|i: int| 0 <= i < run.len() ==> (#[trigger] run[i]) < pts.len(),
        forall|i: int| 0 <= i < run.len() && i != q ==> (#[trigger] run[i]) != run[q],
    ensures
        written(pts, run, values, k).len() == pts.len(),
        written(pts, run, values, k)[run[q] as int] == values[q],
    decreases k,
{
    lemma_written_len(pts, run, values, k - 1);
    assert(run[k - 1] < pts.len());
    if k - 1 > q {
        lemma_written_once(pts, run, values, k - 1, q);
        assert(run[k - 1] != run[q]);
    }
}

proof fn lemma_written_len<P>(pts: Seq<P>, run: Seq<usize>, values: Seq<P>, k: int)
    requires
        k <= run.len(),
        forall|i: int| 0 <= i < run.len() ==> (#[trigger] run[i]) < pts.len(),
    ensures
        written(pts, run, values, k).len() == pts.len(),
    decreases k,
{
    if k > 0 {
        lemma_written_len(pts, run, values, k - 1);
        assert(run[k - 1] < pts.len());
    }
}

/// Whether the `q`-th point of run `r` lies strictly inside it.
spec fn is_inside(corners: Seq<usize>, n: int, r: int, q: int) -> bool {
    0 < q < steps_between(corners[r] as int, next_corner(corners, r) as int, n) - 1
}

/// An inner point of a run is no inner point of another run.
proof fn lemma_runs_apart(corners: Seq<usize>, n: int, closed: bool, r: int, q: int, t: int)
    requires
        1 <= n <= usize::MAX,
        ascending(corners),
        forall|j: int|
            0 <= j < corners.len() ==> (#[trigger] corners[j]) < distinct_vertices(n, closed),
        0 <= r < run_count(corners, closed),
        0 <= t < run_count(corners, closed),
        r != t,
        is_inside(corners, n, r, q),
    ensures
        ({
            let run = run_between(corners[t] as int, next_corner(corners, t) as int, n - 1);
            forall|i: int|
                0 < i < run.len() - 1 ==> (#[trigger] run[i]) != along(
                    corners[r] as int,
                    q,
                    n,
                    closed,
                )
        }),
{
    assert(corners[r] < distinct_vertices(n, closed));
    assert(corners[t] < distinct_vertices(n, closed));
    assert(corners[0] < distinct_vertices(n, closed));
    if r < t {
        assert(corners[r] < corners[t]);
        if r + 1 < t {
            assert(corners[r + 1] < corners[t]);
        }
    } else {
        assert(corners[t] < corners[r]);
        if t + 1 < r {
            assert(corners[t + 1] < corners[r]);
        }
    }
    if r + 1 < corners.len() {
        assert(corners[r] < corners[r + 1]);
        assert(corners[r + 1] < distinct_vertices(n, closed));
        if r + 1 > 0 {
            assert(corners[0] < corners[r + 1]);
        }
    }
    if t + 1 < corners.len() {
        assert(corners[t] < corners[t + 1]);
        assert(corners[t + 1] < distinct_vertices(n, closed));
        assert(corners[0] < corners[t + 1]);
    }
    if r > 0 {
        assert(corners[0] < corners[r]);
    }
    if t > 0 {
        assert(corners[0] < corners[t]);
    }
}

/// Until its own run is smoothed, a point is where it was.
proof fn lemma_untouched<P, FX: Fn(P, P, P, bool) -> P>(
    relax: FX,
    pts: Seq<P>,
    corners: Seq<usize>,
    closed: bool,
    passes: int,
    from: int,
    to: int,
    r: int,
    q: int,
)
    requires
        1 <= pts.len() <= usize::MAX,
        ascending(corners),
        forall|j: int|
            0 <= j < corners.len() ==> (#[trigger] corners[j]) < distinct_vertices(
                pts.len() as int,
                closed,
            ),
        0 <= from <= to <= run_count(corners, closed),
        0 <= r < run_count(corners, closed),
        r < from || r >= to,
        is_inside(corners, pts.len() as int, r, q),
    ensures
        ({
            let j = along(corners[r] as int, q, pts.len() as int, closed);
            &&& 0 <= j < pts.len()
            &&& runs_smoothed(relax, pts, corners, passes, to)[j] == runs_smoothed(
                relax,
                pts,
                corners,
                passes,
                from,
            )[j]
        }),
    decreases to - from,
{
    let n = pts.len() as int;
    let j = along(corners[r] as int, q, n, closed);
    assert(corners[r] < distinct_vertices(n, closed));
    if r + 1 < corners.len() {
        assert(corners[r + 1] < distinct_vertices(n, closed));
        assert(corners[r] < corners[r + 1]);
    } else {
        assert(corners[0] < distinct_vertices(n, closed));
        if r > 0 {
            assert(corners[0] < corners[r]);
        }
    }
    if from < to {
        let t = to - 1;
        lemma_untouched(relax, pts, corners, closed, passes, from, t, r, q);
        let before = runs_smoothed(relax, pts, corners, passes, t);
        let run = run_between(corners[t] as int, next_corner(corners, t) as int, n - 1);
        lemma_runs_keep(relax, pts, corners, closed, passes, t, 0);
        lemma_run_in_range(corners, n, closed, t);
        lemma_runs_apart(corners, n, closed, r, q, t);
        let start = gathered(before, run);
        lemma_taubin(relax, start, passes);
        lemma_written_keeps(before, run, taubin(relax, start, passes), run.len() as int, j);
    }
}

/// The stretch from one corner to the next is smoothed as an open contour of its own would
/// be: it depends on nothing outside it. Through the seam of a closed contour it runs from
/// the last corner on to the first.
pub proof fn law_stretches_are_smoothed_alone<P, FX: Fn(P, P, P, bool) -> P>(
    relax: FX,
    pts: Seq<P>,
    corners: Seq<usize>,
    closed: bool,
    passes: int,
    r: int,
    q: int,
)
    requires
        1 <= pts.len() <= usize::MAX,
        ascending(corners),
        forall|j: int|
            0 <= j < corners.len() ==> (#[trigger] corners[j]) < distinct_vertices(
                pts.len() as int,
                closed,
            ),
        0 <= r < corners.len(),
        closed || r + 1 < corners.len(),
        ({
            let b = corners[if r + 1 < corners.len() {
                r + 1
            } else {
                0
            }] as int;
            let part = stretch(pts, corners[r] as int, b, closed);
            &&& 2 <= part.len() <= usize::MAX
            &&& 0 <= q < part.len()
        }),
    ensures
        ({
            let a = corners[r] as int;
            let b = corners[if r + 1 < corners.len() {
                r + 1
            } else {
                0
            }] as int;
            let part = stretch(pts, a, b, closed);
            contour_smoothed(relax, pts, corners, closed, passes)[along(
                a,
                q,
                pts.len() as int,
                closed,
            )] == contour_smoothed(relax, part, both_ends(part.len() as int), false, passes)[q]
        }),
{
    let n = pts.len() as int;
    let a = corners[r] as int;
    let b = next_corner(corners, r) as int;
    let part = stretch(pts, a, b, closed);
    let count = run_count(corners, closed);
    let run = run_between(a, b, n - 1);
    assert(corners[r] < distinct_vertices(n, closed));
    assert(corners[0] < distinct_vertices(n, closed));
    if r + 1 < corners.len() {
        assert(corners[r + 1] < distinct_vertices(n, closed));
        assert(corners[r] < corners[r + 1]);
    } else if r > 0 {
        assert(corners[0] < corners[r]);
    }
    lemma_one_run(relax, part, passes);
    lemma_taubin(relax, part, passes);
    assert(run.len() == part.len());
    assert forall|i: int| 0 <= i < run.len() implies (#[trigger] run[i]) == along(a, i, n, closed) by {}
    lemma_run_in_range(corners, n, closed, r);
    let before = runs_smoothed(relax, pts, corners, passes, r);
    lemma_runs_keep(relax, pts, corners, closed, passes, r, r);
    let next: int = if r + 1 < corners.len() {
        r + 1
    } else {
        0
    };
    lemma_runs_keep(relax, pts, corners, closed, passes, r, next);
    assert forall|i: int| 0 <= i < run.len() implies #[trigger] gathered(before, run)[i]
        == part[i] by {
        assert(run[i] == along(a, i, n, closed));
        if 0 < i < run.len() - 1 {
            lemma_untouched(relax, pts, corners, closed, passes, 0, r, r, i);
        }
    }
    assert(gathered(before, run) =~= part);
    let values = taubin(relax, part, passes);
    let after = runs_smoothed(relax, pts, corners, passes, r + 1);
    assert(after == written(before, run, values, run.len() as int));
    let all = runs_smoothed(relax, pts, corners, passes, count);
    let j = along(a, q, n, closed);
    if 0 < q < run.len() - 1 {
        assert forall|i: int| 0 <= i < run.len() && i != q implies (#[trigger] run[i]) != run[q] by {
            assert(run[i] == along(a, i, n, closed));
            assert(run[q] == along(a, q, n, closed));
        }
        lemma_written_once(before, run, values, run.len() as int, q);
        assert(run[q] == j);
        lemma_untouched(relax, pts, corners, closed, passes, r + 1, count, r, q);
    } else {
        law_corners_never_move(relax, pts, corners, closed, passes, r);
        law_corners_never_move(relax, pts, corners, closed, passes, next);
        assert(run[q] == j);
    }
    lemma_runs_keep(relax, pts, corners, closed, passes, count, r);
}

} // verus!
