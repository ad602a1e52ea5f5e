//! Sub-pixel edge reconstruction: the bookkeeping around the solve.
//!
//! When a rasteriser draws a shape, each edge pixel is set to the area-weighted
//! average of the colours either side of the boundary. That average is
//! invertible, and says how far each contour vertex should move. Junction points
//! are handled once, as shared nodes, so the three or more arcs meeting there
//! stay welded together.

use crate::config::SubpixelConfig;
use crate::corners::{flank, flank_of};
use crate::cracks::Arc;
use crate::pure::{
    call1, call2, call3, call4, pure1, pure2, pure3, pure4, value1, value2, value3, value4,
};
use crate::segment::OUTSIDE;
use crate::topology::Topology;
use vstd::prelude::*;

verus! {

/// How many times position and orientation are solved for in turn.
pub open spec fn rounds_of(iterations: int) -> int {
    if iterations == 0 {
        1
    } else {
        iterations
    }
}

fn rounds(iterations: usize) -> (n: usize)
    ensures
        n == rounds_of(iterations as int),
{
    if iterations == 0 {
        1
    } else {
        iterations
    }
}

/// Half-width of the window over which orientation is measured. The first round
/// has to span several staircase steps to see the slope at all; once the contour
/// is straight, a tighter window tracks real curvature better.
pub open spec fn window_of(round: int) -> int {
    if round == 0 {
        5
    } else {
        3
    }
}

fn window(round: usize) -> (k: usize)
    ensures
        k == window_of(round as int),
{
    if round == 0 {
        5
    } else {
        3
    }
}

/// Whether a contour is moved at all: there is no anti-aliasing data beyond the
/// image edge.
pub open spec fn is_movable<P>(a: Arc<P>) -> bool {
    !a.on_border && a.left != OUTSIDE && a.right != OUTSIDE
}

fn movable<P>(a: &Arc<P>) -> (b: bool)
    ensures
        b == is_movable(*a),
{
    !a.on_border && a.left != OUTSIDE && a.right != OUTSIDE
}

/// The neighbours of vertex `i` on a contour of `n` points, cyclic on a closed
/// one, whose last point repeats its first. Endpoints of an open contour have
/// none: they are shared junction nodes.
pub open spec fn neighbours_of(i: int, n: int, closed: bool) -> Option<(usize, usize)> {
    if closed {
        let m = n - 1;
        Some(
            (
                (if i == 0 {
                    m - 1
                } else {
                    i - 1
                }) as usize,
                (if i == m - 1 {
                    0
                } else {
                    i + 1
                }) as usize,
            ),
        )
    } else if i >= 1 && i + 1 < n {
        Some(((i - 1) as usize, (i + 1) as usize))
    } else {
        None
    }
}

/// See [`neighbours_of`].
fn neighbours(i: usize, n: usize, closed: bool) -> (v: Option<(usize, usize)>)
    requires
        closed ==> n >= 2 && i < n - 1,
        i < n,
    ensures
        v == neighbours_of(i as int, n as int, closed),
{
    if closed {
        let a: usize = if i == 0 {
            n - 2
        } else {
            i - 1
        };
        let b: usize = if i == n - 2 {
            0
        } else {
            i + 1
        };
        Some((a, b))
    } else if i >= 1 && i < n - 1 {
        Some((i - 1, i + 1))
    } else {
        None
    }
}

// ---- Direction ----------------------------------------------------------

/// The half-width, at most `k`, over which the contour around vertex `i` does
/// not turn a corner.
pub open spec fn straight_width<P, FS: Fn(P, P, P) -> bool>(
    straight: FS,
    pts: Seq<P>,
    closed: bool,
    i: int,
    k: int,
) -> int
    decreases k,
{
    if k <= 1 {
        1
    } else {
        match flank(pts.len() as int, closed, i, k) {
            Some((a, b)) => if value3(straight, pts[a as int], pts[i], pts[b as int]) {
                k
            } else {
                straight_width(straight, pts, closed, i, k - 1)
            },
            None => straight_width(straight, pts, closed, i, k - 1),
        }
    }
}

/// The widest chord around vertex `i`, of half-width at most `k`, whose ends are
/// apart; without one, a step to a neighbour.
pub open spec fn widest_chord<P, FA: Fn(P, P) -> bool>(
    apart: FA,
    pts: Seq<P>,
    closed: bool,
    i: int,
    k: int,
) -> (usize, usize)
    decreases k,
{
    if k <= 0 {
        if i + 1 < pts.len() {
            (i as usize, (i + 1) as usize)
        } else {
            ((i - 1) as usize, i as usize)
        }
    } else {
        match flank(pts.len() as int, closed, i, k) {
            Some((a, b)) => if value2(apart, pts[a as int], pts[b as int]) {
                (a, b)
            } else {
                widest_chord(apart, pts, closed, i, k - 1)
            },
            None => widest_chord(apart, pts, closed, i, k - 1),
        }
    }
}

/// See [`local_tangent`].
pub open spec fn tangent_at<P, FS: Fn(P, P, P) -> bool, FA: Fn(P, P) -> bool>(
    straight: FS,
    apart: FA,
    pts: Seq<P>,
    closed: bool,
    i: int,
    max_k: int,
) -> Option<(P, P)> {
    if pts.len() < 2 {
        None
    } else {
        let (a, b) = widest_chord(
            apart,
            pts,
            closed,
            i,
            straight_width(straight, pts, closed, i, max_k),
        );
        Some((pts[a as int], pts[b as int]))
    }
}

/// The chord that gives the local direction at vertex `i`, estimated over a
/// window. A contour of one point has none.
///
/// A single-step tangent is useless here: the raw contour is a staircase of
/// axis-aligned unit steps, so consecutive steps only ever point along an axis.
/// Widening the window recovers the true direction of a slanted edge. Near a
/// sharp turn a wide window would instead cut the corner, so the window shrinks
/// when it detects one: `straight` tells whether a contour runs on through the
/// middle one of three points. Two points must be `apart` to give a direction.
pub fn local_tangent<P: Copy, FS: Fn(P, P, P) -> bool, FA: Fn(P, P) -> bool>(
    straight: &FS,
    apart: &FA,
    pts: &Vec<P>,
    closed: bool,
    i: usize,
    max_k: usize,
) -> (chord: Option<(P, P)>)
    requires
        pure3(*straight),
        pure2(*apart),
        i < pts@.len() <= isize::MAX,
        max_k <= isize::MAX,
    ensures
        chord == tangent_at(*straight, *apart, pts@, closed, i as int, max_k as int),
{
    let n: usize = pts.len();
    if n < 2 {
        return None;
    }
    let mut k: usize = if max_k < 1 {
        1
    } else {
        max_k
    };
    let mut searching: bool = true;
    while searching && k > 1
        invariant
            pure3(*straight),
            i < n,
            2 <= n <= isize::MAX,
            n == pts@.len(),
            1 <= k <= isize::MAX,
            searching ==> straight_width(*straight, pts@, closed, i as int, k as int)
                == straight_width(*straight, pts@, closed, i as int, max_k as int),
            !searching ==> k == straight_width(*straight, pts@, closed, i as int, max_k as int),
        decreases
            k,
            if searching {
                1int
            } else {
                0int
            },
    {
        match flank_of(n, closed, i, k) {
            Some((a, b)) => {
                if call3(straight, pts[a], pts[i], pts[b]) {
                    searching = false;
                } else {
                    k = k - 1;
                }
            },
            None => {
                k = k - 1;
            },
        }
    }
    let ghost width = k as int;
    assert(width == straight_width(*straight, pts@, closed, i as int, max_k as int));
    while k > 0
        invariant
            pure2(*apart),
            i < n,
            2 <= n <= isize::MAX,
            n == pts@.len(),
            k <= isize::MAX,
            width == straight_width(*straight, pts@, closed, i as int, max_k as int),
            widest_chord(*apart, pts@, closed, i as int, k as int) == widest_chord(
                *apart,
                pts@,
                closed,
                i as int,
                width,
            ),
        decreases k,
    {
        match flank_of(n, closed, i, k) {
            Some((a, b)) => {
                if call2(apart, pts[a], pts[b]) {
                    return Some((pts[a], pts[b]));
                }
            },
            None => {},
        }
        k = k - 1;
    }
    if i < n - 1 {
        Some((pts[i], pts[i + 1]))
    } else {
        Some((pts[i - 1], pts[i]))
    }
}

// ---- The solve ----------------------------------------------------------

/// Where vertex `i` goes in one round, and the normal it was moved along. The
/// solve starts from the original vertex every round: feeding the moved point
/// back in would let vertices creep along the contour instead of only across it.
/// A vertex without evidence is put back, and holds no normal. One whose
/// direction cannot be told is put back too, and keeps what it held.
pub open spec fn solved_vertex<
    P,
    N,
    FS: Fn(P, P, P) -> bool,
    FA: Fn(P, P) -> bool,
    FN: Fn(Option<(P, P)>) -> Option<N>,
    FM: Fn((u32, u32), P, N) -> Option<P>,
>(
    straight: FS,
    apart: FA,
    normal: FN,
    settle: FM,
    sides: (u32, u32),
    orig: Seq<P>,
    closed: bool,
    cur: Seq<P>,
    held: Seq<Option<N>>,
    round: int,
    i: int,
) -> (P, Option<N>) {
    let chord = tangent_at(straight, apart, cur, closed, i, window_of(round));
    match value1(normal, chord) {
        Some(nrm) => match value3(settle, sides, orig[i], nrm) {
            Some(p) => (p, Some(nrm)),
            None => (orig[i], None),
        },
        None => (orig[i], held[i]),
    }
}

/// The vertex whose fate vertex `i` shares: the last point of a closed contour
/// repeats its first.
pub open spec fn twin(n: int, closed: bool, i: int) -> int {
    if closed && i == n - 1 {
        0
    } else {
        i
    }
}

/// Positions and held normals after the first `rounds` rounds.
pub open spec fn solved<
    P,
    N,
    FS: Fn(P, P, P) -> bool,
    FA: Fn(P, P) -> bool,
    FN: Fn(Option<(P, P)>) -> Option<N>,
    FM: Fn((u32, u32), P, N) -> Option<P>,
>(
    straight: FS,
    apart: FA,
    normal: FN,
    settle: FM,
    sides: (u32, u32),
    orig: Seq<P>,
    closed: bool,
    rounds: int,
) -> (Seq<P>, Seq<Option<N>>)
    decreases rounds,
{
    if rounds <= 0 {
        (orig, Seq::new(orig.len(), |i: int| None))
    } else {
        let (cur, held) = solved(straight, apart, normal, settle, sides, orig, closed, rounds - 1);
        let at = |i: int|
            if closed && orig.len() == 1 {
                (cur[i], held[i])
            } else {
                solved_vertex(
                    straight,
                    apart,
                    normal,
                    settle,
                    sides,
                    orig,
                    closed,
                    cur,
                    held,
                    rounds - 1,
                    twin(orig.len() as int, closed, i),
                )
            };
        (
            Seq::new(orig.len(), |i: int| at(i).0),
            Seq::new(orig.len(), |i: int| at(i).1),
        )
    }
}

/// Where smoothing puts vertex `i`. Only vertices that the solve moved take
/// part, and only between two neighbours that it moved too: a vertex with no
/// evidence must not be dragged along, the crack is already the right answer
/// there. `relax` leaves sharp bends alone.
pub open spec fn smoothed_vertex<P, N, FR: Fn(P, P, P, N) -> Option<P>>(
    relax: FR,
    src: Seq<P>,
    held: Seq<Option<N>>,
    closed: bool,
    i: int,
) -> P {
    match (held[i], neighbours_of(i, src.len() as int, closed)) {
        (Some(nrm), Some((a, b))) => if held[a as int].is_some() && held[b as int].is_some() {
            match value4(relax, src[a as int], src[i], src[b as int], nrm) {
                Some(p) => p,
                None => src[i],
            }
        } else {
            src[i]
        },
        _ => src[i],
    }
}

/// Positions after `passes` smoothing passes. It is the refined positions that
/// are smoothed, never the displacements: along a slanted edge the corrections
/// are a sawtooth, and blurring a sawtooth throws away precisely the signal the
/// solve just recovered.
pub open spec fn smoothed<P, N, FR: Fn(P, P, P, N) -> Option<P>>(
    relax: FR,
    start: Seq<P>,
    held: Seq<Option<N>>,
    closed: bool,
    passes: int,
) -> Seq<P>
    decreases passes,
{
    if passes <= 0 {
        start
    } else {
        let src = smoothed(relax, start, held, closed, passes - 1);
        let at = |i: int|
            if closed && start.len() == 1 {
                src[i]
            } else {
                smoothed_vertex(relax, src, held, closed, twin(start.len() as int, closed, i))
            };
        Seq::new(start.len(), at)
    }
}

/// See [`refine_arc`].
pub open spec fn refined<
    P,
    N,
    FS: Fn(P, P, P) -> bool,
    FA: Fn(P, P) -> bool,
    FN: Fn(Option<(P, P)>) -> Option<N>,
    FM: Fn((u32, u32), P, N) -> Option<P>,
    FR: Fn(P, P, P, N) -> Option<P>,
>(
    straight: FS,
    apart: FA,
    normal: FN,
    settle: FM,
    relax: FR,
    cfg: SubpixelConfig,
    sides: (u32, u32),
    orig: Seq<P>,
    closed: bool,
) -> Seq<P> {
    let (cur, held) = solved(
        straight,
        apart,
        normal,
        settle,
        sides,
        orig,
        closed,
        rounds_of(cfg.iterations as int),
    );
    smoothed(relax, cur, held, closed, cfg.smooth_passes as int)
}

pub(crate) fn copy_points<P: Copy>(v: &Vec<P>) -> (c: Vec<P>)
    ensures
        c@ == v@,
{
    let mut c: Vec<P> = Vec::new();
    let mut i: usize = 0;
    while i < v.len()
        invariant
            i <= v@.len(),
            c@ == v@.take(i as int),
        decreases v@.len() - i,
    {
        c.push(v[i]);
        assert(v@.take(i + 1) =~= v@.take(i as int).push(v@[i as int]));
        i = i + 1;
    }
    assert(v@.take(i as int) =~= v@);
    c
}

/// One round of the solve.
fn solve_round<
    P: Copy,
    N: Copy,
    FS: Fn(P, P, P) -> bool,
    FA: Fn(P, P) -> bool,
    FN: Fn(Option<(P, P)>) -> Option<N>,
    FM: Fn((u32, u32), P, N) -> Option<P>,
>(
    straight: &FS,
    apart: &FA,
    normal: &FN,
    settle: &FM,
    sides: (u32, u32),
    orig: &Vec<P>,
    closed: bool,
    cur: &Vec<P>,
    held: &Vec<Option<N>>,
    round: usize,
) -> (next: (Vec<P>, Vec<Option<N>>))
    requires
        pure3(*straight),
        pure2(*apart),
        pure1(*normal),
        pure3(*settle),
        orig@.len() <= isize::MAX,
        closed ==> orig@.len() >= 1,
        round < usize::MAX,
        (cur@, held@) == solved(
            *straight,
            *apart,
            *normal,
            *settle,
            sides,
            orig@,
            closed,
            round as int,
        ),
    ensures
        (next.0@, next.1@) == solved(
            *straight,
            *apart,
            *normal,
            *settle,
            sides,
            orig@,
            closed,
            round + 1,
        ),
{
    let n: usize = orig.len();
    assert(cur@.len() == n && held@.len() == n);
    let mut next: Vec<P> = Vec::new();
    let mut kept: Vec<Option<N>> = Vec::new();
    let m: usize = if closed {
        n - 1
    } else {
        n
    };
    let k: usize = window(round);
    let mut i: usize = 0;
    while i < m
        invariant
            pure3(*straight),
            pure2(*apart),
            pure1(*normal),
            pure3(*settle),
            i <= m <= n <= isize::MAX,
            n == orig@.len(),
            n == cur@.len(),
            n == held@.len(),
            k == window_of(round as int),
            k <= 5,
            next@.len() == i,
            kept@.len() == i,
            forall|j: int|
                #![trigger next@[j]]
                #![trigger kept@[j]]
                0 <= j < i ==> (next@[j], kept@[j]) == solved_vertex(
                    *straight,
                    *apart,
                    *normal,
                    *settle,
                    sides,
                    orig@,
                    closed,
                    cur@,
                    held@,
                    round as int,
                    j,
                ),
        decreases m - i,
    {
        let chord: Option<(P, P)> = local_tangent(straight, apart, cur, closed, i, k);
        match call1(normal, chord) {
            Some(nrm) => {
                // Solve from the original lattice vertex.
                match call3(settle, sides, orig[i], nrm) {
                    Some(p) => {
                        next.push(p);
                        kept.push(Some(nrm));
                    },
                    None => {
                        next.push(orig[i]);
                        kept.push(None);
                    },
                }
            },
            None => {
                next.push(orig[i]);
                kept.push(held[i]);
            },
        }
        i = i + 1;
    }
    if closed {
        if m == 0 {
            next.push(cur[0]);
            kept.push(held[0]);
        } else {
            let first: P = next[0];
            let first_held: Option<N> = kept[0];
            next.push(first);
            kept.push(first_held);
        }
    }
    proof {
        let want = solved(*straight, *apart, *normal, *settle, sides, orig@, closed, round + 1);
        assert(next@ =~= want.0);
        assert(kept@ =~= want.1);
    }
    (next, kept)
}

/// One smoothing pass.
fn smooth_pass<P: Copy, N: Copy, FR: Fn(P, P, P, N) -> Option<P>>(
    relax: &FR,
    src: &Vec<P>,
    held: &Vec<Option<N>>,
    closed: bool,
) -> (out: Vec<P>)
    requires
        pure4(*relax),
        held@.len() == src@.len(),
        closed ==> src@.len() >= 1,
    ensures
        out@ == smoothed(*relax, src@, held@, closed, 1),
{
    let n: usize = src.len();
    let m: usize = if closed {
        n - 1
    } else {
        n
    };
    let mut out: Vec<P> = Vec::new();
    let mut i: usize = 0;
    while i < m
        invariant
            pure4(*relax),
            i <= m <= n,
            m == if closed {
                n - 1
            } else {
                n as int
            },
            n == src@.len(),
            n == held@.len(),
            out@.len() == i,
            forall|j: int|
                0 <= j < i ==> #[trigger] out@[j] == smoothed_vertex(*relax, src@, held@, closed, j),
        decreases m - i,
    {
        let mut p: P = src[i];
        match held[i] {
            Some(nrm) => match neighbours(i, n, closed) {
                Some((a, b)) => {
                    if held[a].is_some() && held[b].is_some() {
                        match call4(relax, src[a], src[i], src[b], nrm) {
                            Some(q) => {
                                p = q;
                            },
                            None => {},
                        }
                    }
                },
                None => {},
            },
            None => {},
        }
        out.push(p);
        i = i + 1;
    }
    if closed {
        if m == 0 {
            out.push(src[0]);
        } else {
            let first: P = out[0];
            out.push(first);
        }
    }
    proof {
        reveal_with_fuel(smoothed, 2);
        assert(out@ =~= smoothed(*relax, src@, held@, closed, 1));
    }
    out
}

/// Move the vertices of a contour onto the edge between the two regions on its
/// `sides`.
///
/// Position and orientation are solved for in turn. The first round measures
/// orientation from the raw staircase, which is only accurate for edges near 45
/// degrees; later rounds measure it from a contour that is already close to the
/// true edge. `normal` turns a chord into the direction across it, where it has
/// one; `settle` solves for the place of a vertex along its normal, between those
/// regions, where the pixels say anything about it; `relax` damps the jitter of three successive
/// positions.
pub fn refine_arc<
    P: Copy,
    N: Copy,
    FS: Fn(P, P, P) -> bool,
    FA: Fn(P, P) -> bool,
    FN: Fn(Option<(P, P)>) -> Option<N>,
    FM: Fn((u32, u32), P, N) -> Option<P>,
    FR: Fn(P, P, P, N) -> Option<P>,
>(
    straight: &FS,
    apart: &FA,
    normal: &FN,
    settle: &FM,
    relax: &FR,
    cfg: &SubpixelConfig,
    sides: (u32, u32),
    orig: &Vec<P>,
    closed: bool,
) -> (cur: Vec<P>)
    requires
        pure3(*straight),
        pure2(*apart),
        pure1(*normal),
        pure3(*settle),
        pure4(*relax),
        orig@.len() <= isize::MAX,
        closed ==> orig@.len() >= 1,
    ensures
        cur@ == refined(
            *straight,
            *apart,
            *normal,
            *settle,
            *relax,
            *cfg,
            sides,
            orig@,
            closed,
        ),
        cur@.len() == orig@.len(),
{
    let mut cur: Vec<P> = copy_points(orig);
    let mut held: Vec<Option<N>> = Vec::new();
    let mut i: usize = 0;
    while i < orig.len()
        invariant
            i <= orig@.len(),
            held@ == Seq::new(i as nat, |j: int| Option::<N>::None),
        decreases orig@.len() - i,
    {
        held.push(None);
        assert(held@ =~= Seq::new((i + 1) as nat, |j: int| Option::<N>::None));
        i = i + 1;
    }
    let total: usize = rounds(cfg.iterations);
    let mut round: usize = 0;
    while round < total
        invariant
            pure3(*straight),
            pure2(*apart),
            pure1(*normal),
            pure3(*settle),
            orig@.len() <= isize::MAX,
            closed ==> orig@.len() >= 1,
            round <= total,
            (cur@, held@) == solved(
                *straight,
                *apart,
                *normal,
                *settle,
                sides,
                orig@,
                closed,
                round as int,
            ),
        decreases total - round,
    {
        let (next, kept) = solve_round(
            straight,
            apart,
            normal,
            settle,
            sides,
            orig,
            closed,
            &cur,
            &held,
            round,
        );
        cur = next;
        held = kept;
        round = round + 1;
    }
    let ghost start = cur@;
    assert(start.len() == orig@.len() && held@.len() == orig@.len());
    let mut pass: usize = 0;
    while pass < cfg.smooth_passes
        invariant
            pure4(*relax),
            pass <= cfg.smooth_passes,
            start.len() == orig@.len(),
            held@.len() == orig@.len(),
            cur@.len() == orig@.len(),
            closed ==> orig@.len() >= 1,
            cur@ == smoothed(*relax, start, held@, closed, pass as int),
        decreases cfg.smooth_passes - pass,
    {
        let ghost src = cur@;
        cur = smooth_pass(relax, &cur, &held, closed);
        proof {
            reveal_with_fuel(smoothed, 2);
            assert(cur@ =~= smoothed(*relax, start, held@, closed, pass + 1));
        }
        pass = pass + 1;
    }
    cur
}

// ---- Junctions ----------------------------------------------------------

/// The end of an arc.
#[derive(Clone, Copy, Debug, PartialEq, Eq, Structural)]
pub struct ArcEnd {
    pub arc: usize,
    /// The last point rather than the first.
    pub last: bool,
}

/// The ends that vote on where node `v` should go, among the first `k` arcs:
/// those of arcs that do not run along the border.
pub open spec fn votes_upto<P>(arcs: Seq<Arc<P>>, v: int, k: int) -> Seq<ArcEnd>
    decreases k,
{
    if k <= 0 {
        Seq::empty()
    } else {
        let rest = votes_upto(arcs, v, k - 1);
        let a = arcs[k - 1];
        let first = ArcEnd { arc: (k - 1) as usize, last: false };
        let last = ArcEnd { arc: (k - 1) as usize, last: true };
        if a.on_border {
            rest
        } else if a.start_node == v && a.end_node == v {
            rest.push(first).push(last)
        } else if a.start_node == v {
            rest.push(first)
        } else if a.end_node == v {
            rest.push(last)
        } else {
            rest
        }
    }
}

/// For each of `n` nodes, the arc ends that vote on where it should go.
fn node_votes<P>(arcs: &Vec<Arc<P>>, n: usize) -> (votes: Vec<Vec<ArcEnd>>)
    requires
        forall|a: int|
            0 <= a < arcs@.len() ==> (#[trigger] arcs@[a]).start_node < n && arcs@[a].end_node < n,
    ensures
        votes@.len() == n,
        forall|v: int|
            0 <= v < n ==> (#[trigger] votes@[v])@ == votes_upto(
                arcs@,
                v,
                arcs@.len() as int,
            ),
{
    let mut votes: Vec<Vec<ArcEnd>> = Vec::new();
    let mut v: usize = 0;
    while v < n
        invariant
            v <= n,
            votes@.len() == v,
            forall|u: int| 0 <= u < v ==> (#[trigger] votes@[u])@ == Seq::<ArcEnd>::empty(),
        decreases n - v,
    {
        let none: Vec<ArcEnd> = Vec::new();
        assert(none@ =~= Seq::<ArcEnd>::empty());
        votes.push(none);
        v = v + 1;
    }
    let mut k: usize = 0;
    while k < arcs.len()
        invariant
            k <= arcs@.len(),
            votes@.len() == n,
            forall|a: int|
                0 <= a < arcs@.len() ==> (#[trigger] arcs@[a]).start_node < n && arcs@[a].end_node
                    < n,
            forall|v: int|
                0 <= v < n ==> (#[trigger] votes@[v])@ == votes_upto(arcs@, v, k as int),
        decreases arcs@.len() - k,
    {
        let ghost before = votes@;
        let a: &Arc<P> = &arcs[k];
        assert(arcs@[k as int].start_node < n);
        if !a.on_border {
            votes[a.start_node as usize].push(ArcEnd { arc: k, last: false });
            let ghost middle = votes@;
            votes[a.end_node as usize].push(ArcEnd { arc: k, last: true });
            proof {
                assert forall|v: int| 0 <= v < n implies (#[trigger] votes@[v])@ == votes_upto(
                    arcs@,
                    v,
                    k + 1,
                ) by {
                    assert(before[v]@ == votes_upto(arcs@, v, k as int));
                    if v != a.start_node {
                        assert(middle[v] == before[v]);
                    }
                    if v != a.end_node {
                        assert(votes@[v] == middle[v]);
                    }
                }
            }
        } else {
            proof {
                assert forall|v: int| 0 <= v < n implies (#[trigger] votes@[v])@ == votes_upto(
                    arcs@,
                    v,
                    k + 1,
                ) by {
                    assert(before[v]@ == votes_upto(arcs@, v, k as int));
                }
            }
        }
        k = k + 1;
    }
    votes
}

/// Node `v` is touched by a border arc.
pub open spec fn on_image_edge<P>(arcs: Seq<Arc<P>>, v: int) -> bool {
    exists|a: int|
        0 <= a < arcs.len() && (#[trigger] arcs[a]).on_border && (arcs[a].start_node == v
            || arcs[a].end_node == v)
}

/// Which of `n` nodes are pinned to the image edge: those that any border arc
/// touches. They may slide along it but never off it.
fn pinned_nodes<P>(arcs: &Vec<Arc<P>>, n: usize) -> (pinned: Vec<bool>)
    requires
        forall|a: int|
            0 <= a < arcs@.len() ==> (#[trigger] arcs@[a]).start_node < n && arcs@[a].end_node < n,
    ensures
        pinned@.len() == n,
        forall|v: int| 0 <= v < n ==> #[trigger] pinned@[v] == on_image_edge(arcs@, v),
{
    let mut pinned: Vec<bool> = Vec::new();
    let mut v: usize = 0;
    while v < n
        invariant
            v <= n,
            pinned@.len() == v,
            forall|u: int| 0 <= u < v ==> !#[trigger] pinned@[u],
        decreases n - v,
    {
        pinned.push(false);
        v = v + 1;
    }
    let mut k: usize = 0;
    while k < arcs.len()
        invariant
            k <= arcs@.len(),
            pinned@.len() == n,
            forall|a: int|
                0 <= a < arcs@.len() ==> (#[trigger] arcs@[a]).start_node < n && arcs@[a].end_node
                    < n,
            forall|v: int|
                0 <= v < n ==> #[trigger] pinned@[v] == on_image_edge(arcs@.take(k as int), v),
        decreases arcs@.len() - k,
    {
        let ghost before = pinned@;
        let a: &Arc<P> = &arcs[k];
        assert(arcs@[k as int].start_node < n);
        if a.on_border {
            pinned.set(a.start_node as usize, true);
            pinned.set(a.end_node as usize, true);
        }
        proof {
            let less = arcs@.take(k as int);
            let more = arcs@.take(k + 1);
            assert forall|v: int| 0 <= v < n implies #[trigger] pinned@[v] == on_image_edge(
                more,
                v,
            ) by {
                assert(before[v] == on_image_edge(less, v));
                if before[v] {
                    let q = choose|q: int|
                        0 <= q < less.len() && (#[trigger] less[q]).on_border && (less[q].start_node
                            == v || less[q].end_node == v);
                    assert(more[q] == less[q]);
                }
                if a.on_border && (a.start_node == v || a.end_node == v) {
                    assert(more[k as int] == *a);
                }
                if on_image_edge(more, v) {
                    let q = choose|q: int|
                        0 <= q < more.len() && (#[trigger] more[q]).on_border && (more[q].start_node
                            == v || more[q].end_node == v);
                    if q < k {
                        assert(less[q] == more[q]);
                    }
                }
            }
        }
        k = k + 1;
    }
    assert(arcs@.take(k as int) =~= arcs@);
    pinned
}

/// The directions in which a node may move.
#[derive(Clone, Copy, Debug, PartialEq, Eq, Structural)]
pub struct Freedom {
    pub x: bool,
    pub y: bool,
}

/// How a node may move. One that nothing voted on stays put. A pinned node
/// slides along the image edge it is on, and an image corner, on a vertical and
/// a horizontal edge, does not move at all.
pub open spec fn freedom_of(
    voted: bool,
    pinned: bool,
    on_vertical: bool,
    on_horizontal: bool,
) -> Freedom {
    Freedom { x: voted && !(pinned && on_vertical), y: voted && !(pinned && on_horizontal) }
}

fn node_freedom(voted: bool, pinned: bool, on_vertical: bool, on_horizontal: bool) -> (f: Freedom)
    ensures
        f == freedom_of(voted, pinned, on_vertical, on_horizontal),
{
    if !voted {
        return Freedom { x: false, y: false };
    }
    if pinned {
        if on_vertical && on_horizontal {
            return Freedom { x: false, y: false };
        }
        if on_vertical {
            return Freedom { x: false, y: true };
        }
        if on_horizontal {
            return Freedom { x: true, y: false };
        }
    }
    Freedom { x: true, y: true }
}

/// `moved` holds a position for every point of every arc.
pub open spec fn covers<P>(moved: Seq<Vec<P>>, arcs: Seq<Arc<P>>) -> bool {
    &&& moved.len() == arcs.len()
    &&& forall|a: int|
        0 <= a < arcs.len() ==> (#[trigger] moved[a])@.len() == arcs[a].points@.len()
}

/// Arc `b` is arc `a` with its interior points at `moved` and its ends on its
/// nodes.
pub open spec fn is_moved<P>(a: Arc<P>, b: Arc<P>, moved: Seq<P>, nodes: Seq<P>) -> bool {
    &&& b.start_node == a.start_node
    &&& b.end_node == a.end_node
    &&& b.left == a.left
    &&& b.right == a.right
    &&& b.loop_arc == a.loop_arc
    &&& b.on_border == a.on_border
    &&& b.corners@ == a.corners@
    &&& b.points@.len() == a.points@.len()
    &&& forall|k: int| 0 < k < a.points@.len() - 1 ==> #[trigger] b.points@[k] == moved[k]
    &&& b.points@[0] == nodes[a.start_node as int]
    &&& b.points@.last() == nodes[a.end_node as int]
}

/// Apply a refinement: interior vertices take their own new positions, endpoints
/// adopt the shared node position so that arcs meeting at a junction cannot
/// separate.
fn apply_refinement<P: Copy>(topo: &mut Topology<P>, moved: &Vec<Vec<P>>, nodes: Vec<P>)
    requires
        old(topo).has_ends(),
        covers(moved@, old(topo).arcs@),
        nodes@.len() == old(topo).nodes@.len(),
    ensures
        final(topo).nodes@ == nodes@,
        final(topo).region_rings == old(topo).region_rings,
        final(topo).arcs@.len() == old(topo).arcs@.len(),
        final(topo).is_welded(),
        forall|a: int|
            0 <= a < old(topo).arcs@.len() ==> is_moved(
                old(topo).arcs@[a],
                #[trigger] final(topo).arcs@[a],
                moved@[a]@,
                nodes@,
            ),
{
    let ghost arcs0 = topo.arcs@;
    topo.nodes = nodes;
    let mut a: usize = 0;
    while a < topo.arcs.len()
        invariant
            a <= topo.arcs@.len(),
            arcs0 == old(topo).arcs@,
            topo.nodes@ == nodes@,
            topo.region_rings == old(topo).region_rings,
            topo.arcs@.len() == arcs0.len(),
            covers(moved@, arcs0),
            forall|k: int|
                0 <= k < arcs0.len() ==> (#[trigger] arcs0[k]).points@.len() >= 2,
            forall|k: int|
                0 <= k < a ==> interior_moved(arcs0[k], #[trigger] topo.arcs@[k], moved@[k]@),
            forall|k: int| a <= k < arcs0.len() ==> #[trigger] topo.arcs@[k] == arcs0[k],
        decreases topo.arcs@.len() - a,
    {
        let ghost before = topo.arcs@;
        assert(before[a as int] == arcs0[a as int]);
        assert(moved@[a as int]@.len() == arcs0[a as int].points@.len());
        let n: usize = topo.arcs[a].points.len();
        let mut i: usize = 1;
        while i < n - 1
            invariant
                1 <= i <= n - 1,
                n == arcs0[a as int].points@.len(),
                a < arcs0.len(),
                topo.nodes@ == nodes@,
                topo.region_rings == old(topo).region_rings,
                topo.arcs@.len() == arcs0.len(),
                moved@.len() == arcs0.len(),
                moved@[a as int]@.len() == n,
                forall|k: int|
                    0 <= k < arcs0.len() && k != a ==> #[trigger] topo.arcs@[k] == before[k],
                same_arc_but_points(arcs0[a as int], topo.arcs@[a as int]),
                forall|k: int|
                    0 < k < i ==> #[trigger] topo.arcs@[a as int].points@[k] == moved@[a as int]@[k],
            decreases n - i,
        {
            let p: P = moved[a][i];
            topo.arcs[a].points.set(i, p);
            i = i + 1;
        }
        proof {
            assert forall|k: int| 0 <= k < a + 1 implies interior_moved(
                arcs0[k],
                #[trigger] topo.arcs@[k],
                moved@[k]@,
            ) by {
                if k < a {
                    assert(topo.arcs@[k] == before[k]);
                }
            }
        }
        a = a + 1;
    }
    proof {
        assert forall|k: int| 0 <= k < topo.arcs@.len() implies (
        #[trigger] topo.arcs@[k]).points@.len() >= 2 && topo.arcs@[k].start_node
            < topo.nodes@.len() && topo.arcs@[k].end_node < topo.nodes@.len() by {
            assert(interior_moved(arcs0[k], topo.arcs@[k], moved@[k]@));
            assert(old(topo).arcs@[k].points@.len() >= 2);
        }
    }
    let ghost middle = topo.arcs@;
    topo.weld();
    proof {
        assert forall|k: int| 0 <= k < arcs0.len() implies is_moved(
            arcs0[k],
            #[trigger] topo.arcs@[k],
            moved@[k]@,
            nodes@,
        ) by {
            assert(interior_moved(arcs0[k], middle[k], moved@[k]@));
            assert(crate::topology::same_but_ends(middle[k], topo.arcs@[k]));
            assert(arcs0[k].points@.len() >= 2);
        }
    }
}

spec fn same_arc_but_points<P>(a: Arc<P>, b: Arc<P>) -> bool {
    &&& b.start_node == a.start_node
    &&& b.end_node == a.end_node
    &&& b.left == a.left
    &&& b.right == a.right
    &&& b.loop_arc == a.loop_arc
    &&& b.on_border == a.on_border
    &&& b.corners@ == a.corners@
    &&& b.points@.len() == a.points@.len()
}

spec fn interior_moved<P>(a: Arc<P>, b: Arc<P>, moved: Seq<P>) -> bool {
    &&& same_arc_but_points(a, b)
    &&& forall|k: int| 0 < k < a.points@.len() - 1 ==> #[trigger] b.points@[k] == moved[k]
}

// ---- The whole topology -------------------------------------------------

/// What the votes on a node add up to: each counts how far its end of its arc
/// was moved.
pub open spec fn vote_total<P, D, FV: Fn(D, P, P) -> D>(
    add: FV,
    zero: D,
    arcs: Seq<Arc<P>>,
    moved: Seq<Seq<P>>,
    votes: Seq<ArcEnd>,
) -> D
    decreases votes.len(),
{
    if votes.len() == 0 {
        zero
    } else {
        let e = votes.last();
        let from = arcs[e.arc as int].points@;
        let k = if e.last {
            from.len() - 1
        } else {
            0
        };
        value3(
            add,
            vote_total(add, zero, arcs, moved, votes.drop_last()),
            from[k],
            moved[e.arc as int][k],
        )
    }
}

/// Whether a point is where it was, or within reach of there.
pub open spec fn is_near<P, FI: Fn(P, P) -> bool>(within: FI, from: P, to: P) -> bool {
    to == from || value2(within, from, to)
}

/// Where a point goes that is to move from `from` to `to`. One that would go too
/// far goes only as far as it may, and one that cannot be held back stays.
pub open spec fn held_back<P, FI: Fn(P, P) -> bool, FC: Fn(P, P) -> P>(
    within: FI,
    cap: FC,
    from: P,
    to: P,
) -> P {
    if value2(within, from, to) {
        to
    } else if value2(within, from, value2(cap, from, to)) {
        value2(cap, from, to)
    } else {
        from
    }
}

fn hold_back<P: Copy, FI: Fn(P, P) -> bool, FC: Fn(P, P) -> P>(
    within: &FI,
    cap: &FC,
    from: P,
    to: P,
) -> (q: P)
    requires
        pure2(*within),
        pure2(*cap),
    ensures
        q == held_back(*within, *cap, from, to),
        is_near(*within, from, q),
{
    if call2(within, from, to) {
        to
    } else {
        let c: P = call2(cap, from, to);
        if call2(within, from, c) {
            c
        } else {
            from
        }
    }
}

/// Where node `v` goes.
pub open spec fn node_place<
    P,
    D,
    FE: Fn(P) -> (bool, bool),
    FV: Fn(D, P, P) -> D,
    FW: Fn(P, D, usize, Freedom) -> P,
    FI: Fn(P, P) -> bool,
    FC: Fn(P, P) -> P,
>(
    edges: FE,
    add: FV,
    shift: FW,
    within: FI,
    cap: FC,
    zero: D,
    nodes: Seq<P>,
    arcs: Seq<Arc<P>>,
    moved: Seq<Seq<P>>,
    v: int,
) -> P {
    let votes = votes_upto(arcs, v, arcs.len() as int);
    let on = value1(edges, nodes[v]);
    let free = freedom_of(votes.len() > 0, on_image_edge(arcs, v), on.0, on.1);
    if free.x || free.y {
        let to = value4(
            shift,
            nodes[v],
            vote_total(add, zero, arcs, moved, votes),
            votes.len() as usize,
            free,
        );
        held_back(within, cap, nodes[v], to)
    } else {
        nodes[v]
    }
}

/// The positions that the solve finds for every arc. Those of arcs along the
/// image edge stay as they are.
pub open spec fn refined_arcs<
    P,
    N,
    FS: Fn(P, P, P) -> bool,
    FA: Fn(P, P) -> bool,
    FN: Fn(Option<(P, P)>) -> Option<N>,
    FM: Fn((u32, u32), P, N) -> Option<P>,
    FR: Fn(P, P, P, N) -> Option<P>,
>(
    straight: FS,
    apart: FA,
    normal: FN,
    settle: FM,
    relax: FR,
    cfg: SubpixelConfig,
    arcs: Seq<Arc<P>>,
) -> Seq<Seq<P>> {
    Seq::new(
        arcs.len(),
        |a: int|
            if is_movable(arcs[a]) {
                refined(
                    straight,
                    apart,
                    normal,
                    settle,
                    relax,
                    cfg,
                    (arcs[a].left, arcs[a].right),
                    arcs[a].points@,
                    arcs[a].loop_arc,
                )
            } else {
                arcs[a].points@
            },
    )
}

/// The positions that an arc's vertices end up on.
pub open spec fn landed<P, FL: Fn(P, P) -> P, FI: Fn(P, P) -> bool, FC: Fn(P, P) -> P>(
    land: FL,
    within: FI,
    cap: FC,
    from: Seq<P>,
    to: Seq<P>,
) -> Seq<P> {
    Seq::new(
        from.len(),
        |k: int| held_back(within, cap, from[k], value2(land, from[k], to[k])),
    )
}

/// The votes on a node, added up.
fn add_votes<P: Copy, D: Copy, FV: Fn(D, P, P) -> D>(
    add: &FV,
    zero: D,
    arcs: &Vec<Arc<P>>,
    moved: &Vec<Vec<P>>,
    votes: &Vec<ArcEnd>,
    Ghost(places): Ghost<Seq<Seq<P>>>,
) -> (sum: D)
    requires
        pure3(*add),
        covers(moved@, arcs@),
        is_views(moved@, places),
        forall|a: int| 0 <= a < arcs@.len() ==> (#[trigger] arcs@[a]).points@.len() >= 2,
        forall|q: int| 0 <= q < votes@.len() ==> (#[trigger] votes@[q]).arc < arcs@.len(),
    ensures
        sum == vote_total(*add, zero, arcs@, places, votes@),
{
    let mut sum: D = zero;
    let mut q: usize = 0;
    assert(votes@.take(0).len() == 0);
    while q < votes.len()
        invariant
            pure3(*add),
            covers(moved@, arcs@),
            is_views(moved@, places),
            forall|a: int| 0 <= a < arcs@.len() ==> (#[trigger] arcs@[a]).points@.len() >= 2,
            forall|q: int| 0 <= q < votes@.len() ==> (#[trigger] votes@[q]).arc < arcs@.len(),
            q <= votes@.len(),
            sum == vote_total(*add, zero, arcs@, places, votes@.take(q as int)),
        decreases votes@.len() - q,
    {
        let e: ArcEnd = votes[q];
        assert(votes@[q as int].arc < arcs@.len());
        let from: &Vec<P> = &arcs[e.arc].points;
        let to: &Vec<P> = &moved[e.arc];
        assert(from@.len() >= 2 && to@.len() == from@.len());
        let k: usize = if e.last {
            from.len() - 1
        } else {
            0
        };
        sum = call3(add, sum, from[k], to[k]);
        proof {
            let next = votes@.take(q + 1);
            assert(next.drop_last() =~= votes@.take(q as int));
            assert(next.last() == e);
            assert(places[e.arc as int] == to@);
        }
        q = q + 1;
    }
    assert(votes@.take(q as int) =~= votes@);
    sum
}

/// `places` are the views of `moved`.
spec fn is_views<P>(moved: Seq<Vec<P>>, places: Seq<Seq<P>>) -> bool {
    &&& moved.len() == places.len()
    &&& forall|a: int| 0 <= a < moved.len() ==> (#[trigger] moved[a])@ == places[a]
}

proof fn lemma_votes_in_range<P>(arcs: Seq<Arc<P>>, v: int, k: int)
    requires
        0 <= k <= arcs.len() <= usize::MAX,
    ensures
        forall|q: int|
            0 <= q < votes_upto(arcs, v, k).len() ==> (#[trigger] votes_upto(arcs, v, k)[q]).arc < k,
    decreases k,
{
    if k > 0 {
        lemma_votes_in_range(arcs, v, k - 1);
        let rest = votes_upto(arcs, v, k - 1);
        let all = votes_upto(arcs, v, k);
        assert forall|q: int| 0 <= q < all.len() implies (#[trigger] all[q]).arc < k by {
            if q < rest.len() {
                assert(all[q] == rest[q]);
            }
        }
    }
}

/// Where every node goes.
fn place_nodes<
    P: Copy,
    D: Copy,
    FE: Fn(P) -> (bool, bool),
    FV: Fn(D, P, P) -> D,
    FW: Fn(P, D, usize, Freedom) -> P,
    FI: Fn(P, P) -> bool,
    FC: Fn(P, P) -> P,
>(
    edges: &FE,
    add: &FV,
    shift: &FW,
    within: &FI,
    cap: &FC,
    zero: D,
    topo: &Topology<P>,
    moved: &Vec<Vec<P>>,
    Ghost(places): Ghost<Seq<Seq<P>>>,
) -> (nodes: Vec<P>)
    requires
        pure1(*edges),
        pure3(*add),
        pure4(*shift),
        pure2(*within),
        pure2(*cap),
        topo.has_ends(),
        covers(moved@, topo.arcs@),
        is_views(moved@, places),
    ensures
        nodes@ == Seq::new(
            topo.nodes@.len(),
            |v: int|
                node_place(*edges, *add, *shift, *within, *cap, zero, topo.nodes@, topo.arcs@, places, v),
        ),
        forall|v: int| 0 <= v < nodes@.len() ==> is_near(*within, topo.nodes@[v], #[trigger] nodes@[v]),
{
    let n: usize = topo.nodes.len();
    proof {
        assert forall|a: int| 0 <= a < topo.arcs@.len() implies (
        #[trigger] topo.arcs@[a]).start_node < n && topo.arcs@[a].end_node < n
            && topo.arcs@[a].points@.len() >= 2 by {}
    }
    let votes: Vec<Vec<ArcEnd>> = node_votes(&topo.arcs, n);
    let pinned: Vec<bool> = pinned_nodes(&topo.arcs, n);
    let mut nodes: Vec<P> = Vec::new();
    let mut v: usize = 0;
    while v < n
        invariant
            pure1(*edges),
            pure3(*add),
            pure4(*shift),
            pure2(*within),
            pure2(*cap),
            covers(moved@, topo.arcs@),
            is_views(moved@, places),
            forall|a: int|
                0 <= a < topo.arcs@.len() ==> (#[trigger] topo.arcs@[a]).points@.len() >= 2,
            v <= n,
            n == topo.nodes@.len(),
            votes@.len() == n,
            pinned@.len() == n,
            forall|u: int|
                0 <= u < n ==> (#[trigger] votes@[u])@ == votes_upto(
                    topo.arcs@,
                    u,
                    topo.arcs@.len() as int,
                ),
            forall|u: int| 0 <= u < n ==> #[trigger] pinned@[u] == on_image_edge(topo.arcs@, u),
            nodes@ == Seq::new(
                v as nat,
                |u: int|
                    node_place(*edges, *add, *shift, *within, *cap, zero, topo.nodes@, topo.arcs@, places, u),
            ),
            forall|u: int| 0 <= u < v ==> is_near(*within, topo.nodes@[u], #[trigger] nodes@[u]),
        decreases n - v,
    {
        let node: P = topo.nodes[v];
        assert(votes@[v as int]@ == votes_upto(topo.arcs@, v as int, topo.arcs@.len() as int));
        assert(pinned@[v as int] == on_image_edge(topo.arcs@, v as int));
        let (on_v, on_h) = call1(edges, node);
        let count: usize = votes[v].len();
        let free: Freedom = node_freedom(count > 0, pinned[v], on_v, on_h);
        let place: P = if free.x || free.y {
            proof {
                assert(topo.arcs@.len() == topo.arcs.len());
                lemma_votes_in_range(topo.arcs@, v as int, topo.arcs@.len() as int);
            }
            let sum: D = add_votes(add, zero, &topo.arcs, moved, &votes[v], Ghost(places));
            let to: P = call4(shift, node, sum, count, free);
            hold_back(within, cap, node, to)
        } else {
            node
        };
        nodes.push(place);
        assert(nodes@ =~= Seq::new(
            (v + 1) as nat,
            |u: int| node_place(*edges, *add, *shift, *within, *cap, zero, topo.nodes@, topo.arcs@, places, u),
        ));
        v = v + 1;
    }
    nodes
}

/// Move every contour vertex onto the edge the anti-aliasing implies.
///
/// Junction points are handled once, as shared nodes, so the three or more arcs
/// meeting there stay welded together: the ends of the arcs vote on where their
/// node should go. `add` counts a vote, which is how far an end was moved, into a
/// total; `shift` moves a node by the mean of its votes, in the directions it is
/// free to move; `edges` tells whether a node is on a vertical and on a
/// horizontal image edge. `land` puts a vertex on its new position, within the
/// image. Nothing moves further than it may in all: `within` tells whether one
/// place is within reach of another, and `cap` gives the place to which a move
/// that is too long is cut. The other callbacks are those of [`refine_arc`].
pub fn refine<
    P: Copy,
    N: Copy,
    D: Copy,
    FS: Fn(P, P, P) -> bool,
    FA: Fn(P, P) -> bool,
    FN: Fn(Option<(P, P)>) -> Option<N>,
    FM: Fn((u32, u32), P, N) -> Option<P>,
    FR: Fn(P, P, P, N) -> Option<P>,
    FE: Fn(P) -> (bool, bool),
    FV: Fn(D, P, P) -> D,
    FW: Fn(P, D, usize, Freedom) -> P,
    FL: Fn(P, P) -> P,
    FI: Fn(P, P) -> bool,
    FC: Fn(P, P) -> P,
>(
    straight: &FS,
    apart: &FA,
    normal: &FN,
    settle: &FM,
    relax: &FR,
    edges: &FE,
    add: &FV,
    shift: &FW,
    land: &FL,
    within: &FI,
    cap: &FC,
    zero: D,
    topo: &mut Topology<P>,
    cfg: &SubpixelConfig,
)
    requires
        pure3(*straight),
        pure2(*apart),
        pure1(*normal),
        pure3(*settle),
        pure4(*relax),
        pure1(*edges),
        pure3(*add),
        pure4(*shift),
        pure2(*land),
        pure2(*within),
        pure2(*cap),
        old(topo).has_ends(),
        forall|a: int|
            0 <= a < old(topo).arcs@.len() ==> (#[trigger] old(topo).arcs@[a]).points@.len()
                <= isize::MAX,
    ensures
        !cfg.enabled ==> *final(topo) == *old(topo),
        final(topo).region_rings == old(topo).region_rings,
        final(topo).arcs@.len() == old(topo).arcs@.len(),
        cfg.enabled ==> {
            let places = refined_arcs(
                *straight,
                *apart,
                *normal,
                *settle,
                *relax,
                *cfg,
                old(topo).arcs@,
            );
            &&& final(topo).is_welded()
            &&& final(topo).nodes@ == Seq::new(
                old(topo).nodes@.len(),
                |v: int|
                    node_place(
                        *edges,
                        *add,
                        *shift,
                        *within,
                        *cap,
                        zero,
                        old(topo).nodes@,
                        old(topo).arcs@,
                        places,
                        v,
                    ),
            )
            &&& forall|a: int|
                0 <= a < old(topo).arcs@.len() ==> is_moved(
                    old(topo).arcs@[a],
                    #[trigger] final(topo).arcs@[a],
                    landed(*land, *within, *cap, old(topo).arcs@[a].points@, places[a]),
                    final(topo).nodes@,
                )
        },
        final(topo).nodes@.len() == old(topo).nodes@.len(),
        forall|v: int|
            0 <= v < old(topo).nodes@.len() ==> is_near(
                *within,
                old(topo).nodes@[v],
                #[trigger] final(topo).nodes@[v],
            ),
        forall|a: int|
            0 <= a < old(topo).arcs@.len() ==> interior_near(
                *within,
                old(topo).arcs@[a],
                #[trigger] final(topo).arcs@[a],
            ),
        old(topo).is_welded() ==> forall|a: int|
            0 <= a < old(topo).arcs@.len() ==> all_near(
                *within,
                old(topo).arcs@[a],
                #[trigger] final(topo).arcs@[a],
            ),
{
    if !cfg.enabled {
        return;
    }
    let ghost arcs0 = topo.arcs@;
    let ghost places = refined_arcs(*straight, *apart, *normal, *settle, *relax, *cfg, arcs0);
    let mut moved: Vec<Vec<P>> = Vec::new();
    let mut landings: Vec<Vec<P>> = Vec::new();
    let mut a: usize = 0;
    while a < topo.arcs.len()
        invariant
            pure3(*straight),
            pure2(*apart),
            pure1(*normal),
            pure3(*settle),
            pure4(*relax),
            pure2(*land),
            pure2(*within),
            pure2(*cap),
            arcs0 == topo.arcs@,
            places == refined_arcs(*straight, *apart, *normal, *settle, *relax, *cfg, arcs0),
            forall|k: int|
                0 <= k < arcs0.len() ==> 2 <= (#[trigger] arcs0[k]).points@.len() <= isize::MAX,
            a <= arcs0.len(),
            moved@.len() == a,
            landings@.len() == a,
            forall|k: int|
                0 <= k < a ==> (#[trigger] moved@[k])@ == places[k] && moved@[k]@.len()
                    == arcs0[k].points@.len(),
            forall|k: int|
                0 <= k < a ==> (#[trigger] landings@[k])@ == landed(
                    *land,
                    *within,
                    *cap,
                    arcs0[k].points@,
                    places[k],
                ),
            forall|k: int|
                0 <= k < a ==> points_near(*within, arcs0[k].points@, (#[trigger] landings@[k])@),
        decreases arcs0.len() - a,
    {
        let arc: &Arc<P> = &topo.arcs[a];
        assert(arcs0[a as int].points@.len() >= 2);
        let cur: Vec<P> = if movable(arc) {
            refine_arc(
                straight,
                apart,
                normal,
                settle,
                relax,
                cfg,
                (arc.left, arc.right),
                &arc.points,
                arc.loop_arc,
            )
        } else {
            copy_points(&arc.points)
        };
        assert(cur@ == places[a as int]);
        let landing: Vec<P> = land_all(land, within, cap, &arc.points, &cur);
        moved.push(cur);
        landings.push(landing);
        a = a + 1;
    }
    let nodes: Vec<P> = place_nodes(edges, add, shift, within, cap, zero, topo, &moved, Ghost(places));
    apply_refinement(topo, &landings, nodes);
    proof {
        assert forall|k: int| 0 <= k < arcs0.len() implies interior_near(
            *within,
            arcs0[k],
            #[trigger] topo.arcs@[k],
        ) by {
            assert(points_near(*within, arcs0[k].points@, landings@[k]@));
        }
        if old(topo).is_welded() {
            assert forall|k: int| 0 <= k < arcs0.len() implies all_near(
                *within,
                arcs0[k],
                #[trigger] topo.arcs@[k],
            ) by {
                assert(points_near(*within, arcs0[k].points@, landings@[k]@));
                assert(old(topo).arcs@[k] == arcs0[k]);
            }
        }
        assert forall|k: int| 0 <= k < arcs0.len() implies is_moved(
            arcs0[k],
            #[trigger] topo.arcs@[k],
            landed(*land, *within, *cap, arcs0[k].points@, places[k]),
            topo.nodes@,
        ) by {
            assert(landings@[k]@ == landed(*land, *within, *cap, arcs0[k].points@, places[k]));
        }
    }
}

spec fn points_near<P, FI: Fn(P, P) -> bool>(within: FI, from: Seq<P>, to: Seq<P>) -> bool {
    &&& to.len() == from.len()
    &&& forall|k: int| 0 <= k < from.len() ==> is_near(within, from[k], #[trigger] to[k])
}

/// Every point between the ends of an arc is within reach of where it was.
pub open spec fn interior_near<P, FI: Fn(P, P) -> bool>(within: FI, a: Arc<P>, b: Arc<P>) -> bool {
    &&& b.points@.len() == a.points@.len()
    &&& forall|k: int|
        0 < k < a.points@.len() - 1 ==> is_near(within, a.points@[k], #[trigger] b.points@[k])
}

/// Every point of an arc is within reach of where it was.
pub open spec fn all_near<P, FI: Fn(P, P) -> bool>(within: FI, a: Arc<P>, b: Arc<P>) -> bool {
    &&& b.points@.len() == a.points@.len()
    &&& forall|k: int|
        0 <= k < a.points@.len() ==> is_near(within, a.points@[k], #[trigger] b.points@[k])
}

fn land_all<P: Copy, FL: Fn(P, P) -> P, FI: Fn(P, P) -> bool, FC: Fn(P, P) -> P>(
    land: &FL,
    within: &FI,
    cap: &FC,
    from: &Vec<P>,
    to: &Vec<P>,
) -> (out: Vec<P>)
    requires
        pure2(*land),
        pure2(*within),
        pure2(*cap),
        to@.len() == from@.len(),
    ensures
        out@ == landed(*land, *within, *cap, from@, to@),
        forall|k: int| 0 <= k < from@.len() ==> is_near(*within, from@[k], #[trigger] out@[k]),
{
    let mut out: Vec<P> = Vec::new();
    let mut k: usize = 0;
    while k < from.len()
        invariant
            pure2(*land),
            pure2(*within),
            pure2(*cap),
            to@.len() == from@.len(),
            k <= from@.len(),
            out@.len() == k,
            forall|j: int|
                0 <= j < k ==> #[trigger] out@[j] == landed(*land, *within, *cap, from@, to@)[j]
                    && is_near(*within, from@[j], out@[j]),
        decreases from@.len() - k,
    {
        let there: P = call2(land, from[k], to[k]);
        out.push(hold_back(within, cap, from[k], there));
        k = k + 1;
    }
    assert(out@ =~= landed(*land, *within, *cap, from@, to@));
    out
}

/// Image corners do not move at all, and nor do nodes that nothing voted on.
pub proof fn law_image_corners_stay<
    P,
    D,
    FE: Fn(P) -> (bool, bool),
    FV: Fn(D, P, P) -> D,
    FW: Fn(P, D, usize, Freedom) -> P,
    FI: Fn(P, P) -> bool,
    FC: Fn(P, P) -> P,
>(
    edges: FE,
    add: FV,
    shift: FW,
    within: FI,
    cap: FC,
    zero: D,
    nodes: Seq<P>,
    arcs: Seq<Arc<P>>,
    moved: Seq<Seq<P>>,
    v: int,
)
    requires
        (on_image_edge(arcs, v) && value1(edges, nodes[v]) == (true, true)) || votes_upto(
            arcs,
            v,
            arcs.len() as int,
        ).len() == 0,
    ensures
        node_place(edges, add, shift, within, cap, zero, nodes, arcs, moved, v) == nodes[v],
{
}

/// A node pinned to the image edge may slide along it, but is never free to leave
/// it.
pub proof fn law_pinned_nodes_keep_to_the_edge(voted: bool, on_vertical: bool, on_horizontal: bool)
    ensures
        ({
            let free = freedom_of(voted, true, on_vertical, on_horizontal);
            (on_vertical ==> !free.x) && (on_horizontal ==> !free.y)
        }),
{
}

/// Where the pixels say nothing, nothing moves: a contour without a single
/// vertex that could be solved for keeps every position. That is a genuinely
/// hard edge, and the crack is already the best answer there.
pub proof fn law_without_evidence_nothing_moves<
    P,
    N,
    FS: Fn(P, P, P) -> bool,
    FA: Fn(P, P) -> bool,
    FN: Fn(Option<(P, P)>) -> Option<N>,
    FM: Fn((u32, u32), P, N) -> Option<P>,
    FR: Fn(P, P, P, N) -> Option<P>,
>(
    straight: FS,
    apart: FA,
    normal: FN,
    settle: FM,
    relax: FR,
    cfg: SubpixelConfig,
    sides: (u32, u32),
    orig: Seq<P>,
    closed: bool,
)
    requires
        forall|p: P, nrm: N| (#[trigger] value3(settle, sides, p, nrm)) is None,
        closed ==> orig.len() >= 1 && orig.last() == orig[0],
    ensures
        refined(straight, apart, normal, settle, relax, cfg, sides, orig, closed) == orig,
{
    lemma_unsolved(straight, apart, normal, settle, sides, orig, closed, rounds_of(cfg.iterations as int));
    let held = solved(
        straight,
        apart,
        normal,
        settle,
        sides,
        orig,
        closed,
        rounds_of(cfg.iterations as int),
    ).1;
    lemma_unsmoothed(relax, orig, held, closed, cfg.smooth_passes as int);
}

proof fn lemma_unsolved<
    P,
    N,
    FS: Fn(P, P, P) -> bool,
    FA: Fn(P, P) -> bool,
    FN: Fn(Option<(P, P)>) -> Option<N>,
    FM: Fn((u32, u32), P, N) -> Option<P>,
>(
    straight: FS,
    apart: FA,
    normal: FN,
    settle: FM,
    sides: (u32, u32),
    orig: Seq<P>,
    closed: bool,
    rounds: int,
)
    requires
        forall|p: P, nrm: N| (#[trigger] value3(settle, sides, p, nrm)) is None,
        closed ==> orig.len() >= 1 && orig.last() == orig[0],
    ensures
        ({
            let (cur, held) = solved(straight, apart, normal, settle, sides, orig, closed, rounds);
            &&& cur == orig
            &&& held.len() == orig.len()
            &&& forall|i: int| 0 <= i < orig.len() ==> (#[trigger] held[i]) is None
        }),
    decreases rounds,
{
    if rounds > 0 {
        lemma_unsolved(straight, apart, normal, settle, sides, orig, closed, rounds - 1);
        let (cur, held) = solved(straight, apart, normal, settle, sides, orig, closed, rounds);
        assert(cur =~= orig);
    }
}

proof fn lemma_unsmoothed<P, N, FR: Fn(P, P, P, N) -> Option<P>>(
    relax: FR,
    start: Seq<P>,
    held: Seq<Option<N>>,
    closed: bool,
    passes: int,
)
    requires
        held.len() == start.len(),
        forall|i: int| 0 <= i < held.len() ==> (#[trigger] held[i]) is None,
        closed ==> start.len() >= 1 && start.last() == start[0],
    ensures
        smoothed(relax, start, held, closed, passes) == start,
    decreases passes,
{
    if passes > 0 {
        lemma_unsmoothed(relax, start, held, closed, passes - 1);
        assert(smoothed(relax, start, held, closed, passes) =~= start);
    }
}

// ---- What the votes say -------------------------------------------------

/// Every arc begins and ends on its nodes, and `moved` has a place for each of its
/// points.
pub open spec fn ends_on_nodes<P>(nodes: Seq<P>, arcs: Seq<Arc<P>>, moved: Seq<Seq<P>>) -> bool {
    &&& arcs.len() <= usize::MAX
    &&& moved.len() == arcs.len()
    &&& forall|a: int|
        0 <= a < arcs.len() ==> {
            &&& (#[trigger] arcs[a]).points@.len() >= 2
            &&& moved[a].len() == arcs[a].points@.len()
            &&& arcs[a].points@[0] == nodes[arcs[a].start_node as int]
            &&& arcs[a].points@.last() == nodes[arcs[a].end_node as int]
        }
}

/// Moves, each from one place to another, added up in order.
pub open spec fn moves_added<P, D, FV: Fn(D, P, P) -> D>(
    add: FV,
    zero: D,
    moves: Seq<(P, P)>,
) -> D
    decreases moves.len(),
{
    if moves.len() == 0 {
        zero
    } else {
        value3(add, moves_added(add, zero, moves.drop_last()), moves.last().0, moves.last().1)
    }
}

/// `to` is where the solve put an end of arc `a` that lies on node `v`: its start,
/// or its end where `last`. Arcs along the border have no say.
pub open spec fn is_vote<P>(
    arcs: Seq<Arc<P>>,
    moved: Seq<Seq<P>>,
    v: int,
    a: int,
    last: bool,
    to: P,
) -> bool {
    &&& 0 <= a < arcs.len()
    &&& !arcs[a].on_border
    &&& !last ==> arcs[a].start_node == v && to == moved[a][0]
    &&& last ==> arcs[a].end_node == v && to == moved[a].last()
}

proof fn lemma_votes<P, D, FV: Fn(D, P, P) -> D>(
    add: FV,
    zero: D,
    nodes: Seq<P>,
    arcs: Seq<Arc<P>>,
    moved: Seq<Seq<P>>,
    v: int,
    k: int,
) -> (moves: Seq<(P, P)>)
    requires
        ends_on_nodes(nodes, arcs, moved),
        0 <= k <= arcs.len(),
    ensures
        moves.len() == votes_upto(arcs, v, k).len(),
        vote_total(add, zero, arcs, moved, votes_upto(arcs, v, k)) == moves_added(add, zero, moves),
        forall|q: int|
            0 <= q < moves.len() ==> (#[trigger] moves[q]).0 == nodes[v] && votes_upto(
                arcs,
                v,
                k,
            )[q].arc < k && is_vote(
                arcs,
                moved,
                v,
                votes_upto(arcs, v, k)[q].arc as int,
                votes_upto(arcs, v, k)[q].last,
                moves[q].1,
            ),
        forall|q: int, r: int|
            0 <= q < r < moves.len() ==> #[trigger] votes_upto(arcs, v, k)[q] != #[trigger] votes_upto(
                arcs,
                v,
                k,
            )[r],
        forall|a: int|
            0 <= a < k && !(#[trigger] arcs[a]).on_border && arcs[a].start_node == v
                ==> votes_upto(arcs, v, k).contains(ArcEnd { arc: a as usize, last: false }),
        forall|a: int|
            0 <= a < k && !(#[trigger] arcs[a]).on_border && arcs[a].end_node == v
                ==> votes_upto(arcs, v, k).contains(ArcEnd { arc: a as usize, last: true }),
    decreases k,
{
    if k <= 0 {
        Seq::empty()
    } else {
        let before = lemma_votes(add, zero, nodes, arcs, moved, v, k - 1);
        let rest = votes_upto(arcs, v, k - 1);
        let votes = votes_upto(arcs, v, k);
        let a = arcs[k - 1];
        let first = ArcEnd { arc: (k - 1) as usize, last: false };
        let last = ArcEnd { arc: (k - 1) as usize, last: true };
        let up = (nodes[v], moved[k - 1][0]);
        let down = (nodes[v], moved[k - 1].last());
        let moves = if a.on_border {
            before
        } else if a.start_node == v && a.end_node == v {
            before.push(up).push(down)
        } else if a.start_node == v {
            before.push(up)
        } else if a.end_node == v {
            before.push(down)
        } else {
            before
        };
        assert(before.push(up).drop_last() =~= before);
        assert(before.push(down).drop_last() =~= before);
        assert(before.push(up).push(down).drop_last() =~= before.push(up));
        assert(rest.push(first).drop_last() =~= rest);
        assert(rest.push(last).drop_last() =~= rest);
        assert(rest.push(first).push(last).drop_last() =~= rest.push(first));
        assert(a.points@.last() == a.points@[a.points@.len() - 1]);
        assert(moved[k - 1].last() == moved[k - 1][moved[k - 1].len() - 1]);
        if !a.on_border && a.start_node == v {
            assert(rest.push(first).last() == first && before.push(up).last() == up);
            assert(vote_total(add, zero, arcs, moved, rest.push(first)) == moves_added(
                add,
                zero,
                before.push(up),
            ));
        }
        if !a.on_border && a.end_node == v && a.start_node != v {
            assert(rest.push(last).last() == last && before.push(down).last() == down);
            assert(vote_total(add, zero, arcs, moved, rest.push(last)) == moves_added(
                add,
                zero,
                before.push(down),
            ));
        }
        if !a.on_border && a.start_node == v && a.end_node == v {
            assert(votes.last() == last && moves.last() == down);
            assert(votes.drop_last() == rest.push(first));
            assert(moves.drop_last() == before.push(up));
        }
        assert forall|q: int| 0 <= q < moves.len() implies (#[trigger] moves[q]).0 == nodes[v]
            && votes[q].arc < k && is_vote(
            arcs,
            moved,
            v,
            votes[q].arc as int,
            votes[q].last,
            moves[q].1,
        ) by {
            if q < before.len() {
                assert(moves[q] == before[q]);
                assert(votes[q] == rest[q]);
            }
        }
        assert forall|q: int, r: int| 0 <= q < r < moves.len() implies #[trigger] votes[q]
            != #[trigger] votes[r] by {
            if q < before.len() {
                assert(before[q].0 == nodes[v]);
                assert(votes[q] == rest[q]);
                if r < before.len() {
                    assert(votes[r] == rest[r]);
                }
            }
        }
        assert forall|b: int|
            0 <= b < k && !(#[trigger] arcs[b]).on_border && arcs[b].start_node
                == v implies votes.contains(ArcEnd { arc: b as usize, last: false }) by {
            if b < k - 1 {
                let e = ArcEnd { arc: b as usize, last: false };
                let q = choose|q: int| 0 <= q < rest.len() && rest[q] == e;
                assert(votes[q] == e);
            } else {
                assert(votes[rest.len() as int] == first);
            }
        }
        assert forall|b: int|
            0 <= b < k && !(#[trigger] arcs[b]).on_border && arcs[b].end_node
                == v implies votes.contains(ArcEnd { arc: b as usize, last: true }) by {
            if b < k - 1 {
                let e = ArcEnd { arc: b as usize, last: true };
                let q = choose|q: int| 0 <= q < rest.len() && rest[q] == e;
                assert(votes[q] == e);
            } else {
                assert(votes[votes.len() - 1] == last);
            }
        }
        moves
    }
}

/// Every vote on a node is a move of that very node: each goes from where the node is
/// to where the solve put an end of an arc that lies on it. Every end of an arc that
/// lies on the node votes, unless the arc runs along the border, and none votes twice.
pub proof fn law_votes_are_moves_of_the_node<P, D, FV: Fn(D, P, P) -> D>(
    add: FV,
    zero: D,
    nodes: Seq<P>,
    arcs: Seq<Arc<P>>,
    moved: Seq<Seq<P>>,
    v: int,
) -> (r: (Seq<ArcEnd>, Seq<(P, P)>))
    requires
        ends_on_nodes(nodes, arcs, moved),
    ensures
        r.0 == votes_upto(arcs, v, arcs.len() as int),
        r.0.len() == r.1.len(),
        vote_total(add, zero, arcs, moved, r.0) == moves_added(add, zero, r.1),
        forall|q: int|
            0 <= q < r.1.len() ==> (#[trigger] r.1[q]).0 == nodes[v] && is_vote(
                arcs,
                moved,
                v,
                r.0[q].arc as int,
                r.0[q].last,
                r.1[q].1,
            ),
        forall|q: int, s: int| 0 <= q < s < r.0.len() ==> r.0[q] != r.0[s],
        forall|a: int|
            0 <= a < arcs.len() && !(#[trigger] arcs[a]).on_border ==> (arcs[a].start_node == v
                ==> r.0.contains(ArcEnd { arc: a as usize, last: false })) && (arcs[a].end_node == v
                ==> r.0.contains(ArcEnd { arc: a as usize, last: true })),
{
    let moves = lemma_votes(add, zero, nodes, arcs, moved, v, arcs.len() as int);
    (votes_upto(arcs, v, arcs.len() as int), moves)
}

/// A free node on which a single end of an arc votes goes exactly where the solve put
/// that end, where shifting by one vote makes the whole move and nothing is held back.
pub proof fn law_a_single_vote_decides<
    P,
    D,
    FE: Fn(P) -> (bool, bool),
    FV: Fn(D, P, P) -> D,
    FW: Fn(P, D, usize, Freedom) -> P,
    FI: Fn(P, P) -> bool,
    FC: Fn(P, P) -> P,
>(
    edges: FE,
    add: FV,
    shift: FW,
    within: FI,
    cap: FC,
    zero: D,
    nodes: Seq<P>,
    arcs: Seq<Arc<P>>,
    moved: Seq<Seq<P>>,
    v: int,
    a: int,
    last: bool,
)
    requires
        ends_on_nodes(nodes, arcs, moved),
        0 <= a < arcs.len(),
        !arcs[a].on_border,
        if last {
            arcs[a].end_node == v && arcs[a].start_node != v
        } else {
            arcs[a].start_node == v && arcs[a].end_node != v
        },
        forall|b: int|
            0 <= b < arcs.len() && b != a ==> (#[trigger] arcs[b]).start_node != v
                && arcs[b].end_node != v,
        forall|p: P, q: P|
            value4(shift, p, #[trigger] value3(add, zero, p, q), 1usize, (Freedom {
                x: true,
                y: true,
            })) == q,
        value2(
            within,
            nodes[v],
            if last {
                moved[a].last()
            } else {
                moved[a][0]
            },
        ),
    ensures
        node_place(edges, add, shift, within, cap, zero, nodes, arcs, moved, v) == if last {
            moved[a].last()
        } else {
            moved[a][0]
        },
{
    let (ends, moves) = law_votes_are_moves_of_the_node(add, zero, nodes, arcs, moved, v);
    let e = ArcEnd { arc: a as usize, last };
    assert(ends.contains(e));
    let k = choose|k: int| 0 <= k < ends.len() && ends[k] == e;
    assert forall|q: int| 0 <= q < ends.len() implies ends[q] == e by {
        assert(moves[q].0 == nodes[v]);
        assert(arcs[ends[q].arc as int].on_border == false);
    }
    if ends.len() > 1 {
        assert(ends[0] != ends[1]);
    }
    assert(moves[0].0 == nodes[v]);
    assert(moves.len() == 1);
    assert(moves.drop_last().len() == 0);
    assert(moves_added(add, zero, moves.drop_last()) == zero);
    assert(moves.last() == moves[0]);
    assert(moves_added(add, zero, moves) == value3(add, zero, moves[0].0, moves[0].1));
    assert(!on_image_edge(arcs, v)) by {
        if on_image_edge(arcs, v) {
            let b = choose|b: int|
                0 <= b < arcs.len() && (#[trigger] arcs[b]).on_border && (arcs[b].start_node == v
                    || arcs[b].end_node == v);
            assert(b == a);
        }
    }
}

/// A node on a vertical image edge keeps to it, and so does one on a horizontal edge,
/// where `x_of` tells how far along a place is and `y_of` how far down: neither a
/// shift that is not free to change them nor a cap changes them.
pub proof fn law_nodes_slide_along_their_edge<
    P,
    D,
    FE: Fn(P) -> (bool, bool),
    FV: Fn(D, P, P) -> D,
    FW: Fn(P, D, usize, Freedom) -> P,
    FI: Fn(P, P) -> bool,
    FC: Fn(P, P) -> P,
>(
    edges: FE,
    add: FV,
    shift: FW,
    within: FI,
    cap: FC,
    zero: D,
    nodes: Seq<P>,
    arcs: Seq<Arc<P>>,
    moved: Seq<Seq<P>>,
    v: int,
    x_of: spec_fn(P) -> int,
    y_of: spec_fn(P) -> int,
)
    requires
        on_image_edge(arcs, v),
        forall|p: P, d: D, n: usize, free: Freedom|
            !free.x ==> x_of(#[trigger] value4(shift, p, d, n, free)) == x_of(p),
        forall|p: P, d: D, n: usize, free: Freedom|
            !free.y ==> y_of(#[trigger] value4(shift, p, d, n, free)) == y_of(p),
        forall|p: P, q: P|
            x_of(p) == x_of(q) ==> x_of(#[trigger] value2(cap, p, q)) == x_of(p),
        forall|p: P, q: P|
            y_of(p) == y_of(q) ==> y_of(#[trigger] value2(cap, p, q)) == y_of(p),
    ensures
        value1(edges, nodes[v]).0 ==> x_of(
            node_place(edges, add, shift, within, cap, zero, nodes, arcs, moved, v),
        ) == x_of(nodes[v]),
        value1(edges, nodes[v]).1 ==> y_of(
            node_place(edges, add, shift, within, cap, zero, nodes, arcs, moved, v),
        ) == y_of(nodes[v]),
{
}

/// Nothing goes further than it may, and what may go where it is to go, goes there.
pub proof fn law_moves_are_held_back_only_when_too_long<
    P,
    FI: Fn(P, P) -> bool,
    FC: Fn(P, P) -> P,
>(within: FI, cap: FC, from: P, to: P)
    ensures
        value2(within, from, to) ==> held_back(within, cap, from, to) == to,
        held_back(within, cap, from, to) == from || value2(
            within,
            from,
            held_back(within, cap, from, to),
        ),
        !value2(within, from, to) && value2(within, from, value2(cap, from, to)) ==> held_back(
            within,
            cap,
            from,
            to,
        ) == value2(cap, from, to),
{
}

// ---- What the solve is asked --------------------------------------------

proof fn lemma_all_solved<
    P,
    N,
    FS: Fn(P, P, P) -> bool,
    FA: Fn(P, P) -> bool,
    FN: Fn(Option<(P, P)>) -> Option<N>,
    FM: Fn((u32, u32), P, N) -> Option<P>,
>(
    straight: FS,
    apart: FA,
    normal: FN,
    settle: FM,
    sides: (u32, u32),
    orig: Seq<P>,
    closed: bool,
    rounds: int,
    f: spec_fn(P) -> P,
)
    requires
        rounds >= 1,
        orig.len() >= 2,
        closed ==> orig.last() == orig[0],
        forall|chord: Option<(P, P)>| (#[trigger] value1(normal, chord)) is Some,
        forall|p: P, nrm: N| #[trigger] value3(settle, sides, p, nrm) == Some(f(p)),
    ensures
        ({
            let (cur, held) = solved(straight, apart, normal, settle, sides, orig, closed, rounds);
            &&& cur.len() == orig.len()
            &&& held.len() == orig.len()
            &&& forall|i: int|
                0 <= i < orig.len() ==> #[trigger] cur[i] == f(orig[i]) && held[i] is Some
        }),
{
    let (cur, held) = solved(straight, apart, normal, settle, sides, orig, closed, rounds);
    let (old_cur, old_held) = solved(
        straight,
        apart,
        normal,
        settle,
        sides,
        orig,
        closed,
        rounds - 1,
    );
    assert forall|i: int| 0 <= i < orig.len() implies #[trigger] cur[i] == f(orig[i])
        && held[i] is Some by {
        let t = twin(orig.len() as int, closed, i);
        let chord = tangent_at(straight, apart, old_cur, closed, t, window_of(rounds - 1));
        let nrm = value1(normal, chord)->0;
        assert(value3(settle, sides, orig[t], nrm) == Some(f(orig[t])));
        assert(orig[t] == orig[i]);
    }
}

/// Each vertex goes where the solve puts the vertex itself, asked about the regions on
/// its own arc's left and right, in that order: `f` is the answer for those two sides,
/// and nothing is assumed of any others. That holds where nothing is smoothed.
pub proof fn law_vertices_go_where_the_solve_puts_them<
    P,
    N,
    FS: Fn(P, P, P) -> bool,
    FA: Fn(P, P) -> bool,
    FN: Fn(Option<(P, P)>) -> Option<N>,
    FM: Fn((u32, u32), P, N) -> Option<P>,
    FR: Fn(P, P, P, N) -> Option<P>,
>(
    straight: FS,
    apart: FA,
    normal: FN,
    settle: FM,
    relax: FR,
    cfg: SubpixelConfig,
    arcs: Seq<Arc<P>>,
    a: int,
    k: int,
    f: spec_fn(P) -> P,
)
    requires
        0 <= a < arcs.len(),
        !arcs[a].on_border,
        arcs[a].left != OUTSIDE,
        arcs[a].right != OUTSIDE,
        arcs[a].points@.len() >= 2,
        arcs[a].loop_arc ==> arcs[a].points@.last() == arcs[a].points@[0],
        0 <= k < arcs[a].points@.len(),
        cfg.smooth_passes == 0,
        forall|chord: Option<(P, P)>| (#[trigger] value1(normal, chord)) is Some,
        forall|p: P, nrm: N| #[trigger]
            value3(settle, (arcs[a].left, arcs[a].right), p, nrm) == Some(f(p)),
    ensures
        refined_arcs(straight, apart, normal, settle, relax, cfg, arcs)[a].len()
            == arcs[a].points@.len(),
        refined_arcs(straight, apart, normal, settle, relax, cfg, arcs)[a][k] == f(
            arcs[a].points@[k],
        ),
{
    let rounds = rounds_of(cfg.iterations as int);
    let sides = (arcs[a].left, arcs[a].right);
    lemma_all_solved(
        straight,
        apart,
        normal,
        settle,
        sides,
        arcs[a].points@,
        arcs[a].loop_arc,
        rounds,
        f,
    );
    assert(solved(
        straight,
        apart,
        normal,
        settle,
        sides,
        arcs[a].points@,
        arcs[a].loop_arc,
        rounds,
    ).0[k] == f(arcs[a].points@[k]));
}

/// Arcs along the border, or with the outside of the image on a side, are not solved
/// for: there is no anti-aliasing beyond the image.
pub proof fn law_border_arcs_are_not_solved_for<
    P,
    N,
    FS: Fn(P, P, P) -> bool,
    FA: Fn(P, P) -> bool,
    FN: Fn(Option<(P, P)>) -> Option<N>,
    FM: Fn((u32, u32), P, N) -> Option<P>,
    FR: Fn(P, P, P, N) -> Option<P>,
>(
    straight: FS,
    apart: FA,
    normal: FN,
    settle: FM,
    relax: FR,
    cfg: SubpixelConfig,
    arcs: Seq<Arc<P>>,
    a: int,
)
    requires
        0 <= a < arcs.len(),
        arcs[a].on_border || arcs[a].left == OUTSIDE || arcs[a].right == OUTSIDE,
    ensures
        refined_arcs(straight, apart, normal, settle, relax, cfg, arcs)[a] == arcs[a].points@,
{
}

/// Smoothing relaxes each inner vertex of an open contour between the two next to it,
/// the one before it first, along the normal that it was moved along, and leaves it
/// where `relax` does. The ends stay.
pub proof fn law_smoothing_relaxes_between_neighbours<P, N, FR: Fn(P, P, P, N) -> Option<P>>(
    relax: FR,
    start: Seq<P>,
    held: Seq<Option<N>>,
    i: int,
)
    requires
        held.len() == start.len(),
        0 <= i < start.len() <= usize::MAX,
        forall|k: int| 0 <= k < held.len() ==> (#[trigger] held[k]) is Some,
    ensures
        smoothed(relax, start, held, false, 1).len() == start.len(),
        0 < i < start.len() - 1 ==> {
            let to = value4(relax, start[i - 1], start[i], start[i + 1], held[i]->0);
            smoothed(relax, start, held, false, 1)[i] == if to is Some {
                to->0
            } else {
                start[i]
            }
        },
        i == 0 || i == start.len() - 1 ==> smoothed(relax, start, held, false, 1)[i] == start[i],
{
    assert(smoothed(relax, start, held, false, 0) == start);
    assert(held[i] is Some);
    if 0 < i < start.len() - 1 {
        assert(held[i - 1] is Some && held[i + 1] is Some);
    }
}

/// A vertex that was not solved for is not smoothed, and lends no support to its
/// neighbours: only between two solved vertices is one relaxed.
pub proof fn law_smoothing_needs_solved_neighbours<P, N, FR: Fn(P, P, P, N) -> Option<P>>(
    relax: FR,
    start: Seq<P>,
    held: Seq<Option<N>>,
    i: int,
)
    requires
        held.len() == start.len(),
        0 < i < start.len() - 1,
        start.len() <= usize::MAX,
        held[i - 1] is None || held[i] is None || held[i + 1] is None,
    ensures
        smoothed(relax, start, held, false, 1)[i] == start[i],
{
    assert(smoothed(relax, start, held, false, 0) == start);
}

/// The direction at a vertex of an open contour is told by a chord that runs along the
/// contour: its ends are as far before the vertex as after it, or, where no such chord
/// will do, a single step on the contour.
pub proof fn law_chords_run_along_the_contour<
    P,
    FS: Fn(P, P, P) -> bool,
    FA: Fn(P, P) -> bool,
>(straight: FS, apart: FA, pts: Seq<P>, i: int, max_k: int)
    requires
        0 <= i < pts.len(),
        2 <= pts.len() <= isize::MAX,
    ensures
        exists|a: int, b: int|
            0 <= a <= i <= b < pts.len() && a < b && (i - a == b - i || b == a + 1) && (b - a == 1
                || b - i <= 1 || b - i <= max_k) && #[trigger] tangent_at(
                straight,
                apart,
                pts,
                false,
                i,
                max_k,
            ) == Some((#[trigger] pts[a], #[trigger] pts[b])),
{
    let k = straight_width(straight, pts, false, i, max_k);
    lemma_straight_width(straight, pts, i, max_k);
    let (a, b) = lemma_widest_chord(apart, pts, i, k);
    assert(tangent_at(straight, apart, pts, false, i, max_k) == Some((pts[a], pts[b])));
}

proof fn lemma_straight_width<P, FS: Fn(P, P, P) -> bool>(
    straight: FS,
    pts: Seq<P>,
    i: int,
    k: int,
)
    ensures
        1 <= straight_width(straight, pts, false, i, k),
        straight_width(straight, pts, false, i, k) <= 1 || straight_width(
            straight,
            pts,
            false,
            i,
            k,
        ) <= k,
    decreases k,
{
    if k > 1 {
        lemma_straight_width(straight, pts, i, k - 1);
    }
}

proof fn lemma_widest_chord<P, FA: Fn(P, P) -> bool>(
    apart: FA,
    pts: Seq<P>,
    i: int,
    k: int,
) -> (r: (int, int))
    requires
        0 <= i < pts.len(),
        2 <= pts.len() <= isize::MAX,
    ensures
        widest_chord(apart, pts, false, i, k) == (r.0 as usize, r.1 as usize),
        0 <= r.0 <= i <= r.1 < pts.len(),
        r.0 < r.1,
        r.1 == r.0 + 1 || (i - r.0 == r.1 - i && r.1 - i <= k),
    decreases k,
{
    if k <= 0 {
        if i + 1 < pts.len() {
            (i, i + 1)
        } else {
            (i - 1, i)
        }
    } else {
        match flank(pts.len() as int, false, i, k) {
            Some((a, b)) => if value2(apart, pts[a as int], pts[b as int]) {
                (a as int, b as int)
            } else {
                lemma_widest_chord(apart, pts, i, k - 1)
            },
            None => lemma_widest_chord(apart, pts, i, k - 1),
        }
    }
}

/// The first look at a contour spans five steps either way, every later one three, and there
/// is one look at least.
pub proof fn law_the_first_look_is_the_widest(round: int, iterations: int)
    requires
        round > 0,
        iterations > 0,
    ensures
        window_of(0) == 5,
        window_of(round) == 3,
        rounds_of(0) == 1,
        rounds_of(iterations) == iterations,
{
}

/// The neighbours of a vertex are one step before and one step after it. The ends of an open
/// contour have none, and on a closed one, whose last point repeats its first, the first
/// vertex follows the last.
pub proof fn law_neighbours_are_one_step_away(i: int, n: int, closed: bool)
    requires
        3 <= n <= usize::MAX,
        0 <= i < n,
    ensures
        !closed ==> (neighbours_of(i, n, closed) is None <==> i == 0 || i == n - 1),
        !closed && 0 < i < n - 1 ==> neighbours_of(i, n, closed) == Some(
            ((i - 1) as usize, (i + 1) as usize),
        ),
        closed && i < n - 1 ==> {
            &&& neighbours_of(i, n, closed) is Some
            &&& ((neighbours_of(i, n, closed)->0).0 + 1) % (n - 1) == i
            &&& (neighbours_of(i, n, closed)->0).1 == (i + 1) % (n - 1)
            &&& (neighbours_of(i, n, closed)->0).0 < n - 1
        },
{
    if closed && i < n - 1 {
        if i < n - 2 {
            vstd::arithmetic::div_mod::lemma_small_mod((i + 1) as nat, (n - 1) as nat);
        } else {
            vstd::arithmetic::div_mod::lemma_mod_self_0(n - 1);
        }
        if i == 0 {
            vstd::arithmetic::div_mod::lemma_mod_self_0(n - 1);
        } else {
            vstd::arithmetic::div_mod::lemma_small_mod(i as nat, (n - 1) as nat);
        }
    }
}

} // verus!
