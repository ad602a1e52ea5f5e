//! The tracing pipeline, from regions to a vector document.
//!
//! Stage order matters and is not arbitrary. The borders between regions become a
//! planar subdivision of shared arcs. Their vertices are moved onto the edges that
//! the anti-aliasing implies, and only then are corners looked for: on a raw
//! staircase that would be measuring the pixel grid rather than the artwork. What
//! is noisy is smoothed between the corners. Each arc is then fitted exactly once,
//! and the regions are put together from the fitted arcs, each arc being used
//! forwards by one region and backwards by its neighbour.

use crate::config::{CornerConfig, OutputConfig, SubpixelConfig, VectorizeConfig};
use crate::corners::{analyze, is_analyzed, law_corners_are_vertices};
use crate::cracks::{vertex_count, Arc};
use crate::fitting::deduped;
use crate::lattice::GridPoint;
use crate::model::{grouped, shape_maps, shapes_of, ShapeView, VectorImage};
use crate::path::{path_end, PathView, Seg};
use crate::pure::{pure1, pure2, pure3, pure4};
use crate::segment::Segmentation;
use crate::subpixel::{
    all_near, is_moved, is_near, landed, node_place, refine, refined_arcs, Freedom,
};
use crate::topology::{
    build, is_lifted, is_lifted_arc, is_topology_of, law_rings_are_closed,
    law_traced_arcs_are_welded, Topology,
};
use crate::vectorize::{
    all_welded, assemble, fit_arcs, fits_nodes, is_fit, is_welded_path, law_documents_are_welded,
    law_fitting_keeps_to_the_nodes, law_mapping_keeps_welds, law_outlines_have_no_gaps,
    law_traced_rings_can_be_assembled, outline, ref_from, ref_segs, region_shapes, ring_path,
    FittedArc,
};
use vstd::prelude::*;

verus! {

/// What moving vertices onto edges asks of the numbers. See
/// [`refine`](crate::subpixel::refine).
pub struct EdgeCalls<D, FS, FA, FN, FM, FR, FE, FV, FW, FL, FI, FC> {
    pub straight: FS,
    pub apart: FA,
    pub normal: FN,
    pub settle: FM,
    pub relax: FR,
    pub edges: FE,
    pub add: FV,
    pub shift: FW,
    pub land: FL,
    pub within: FI,
    pub cap: FC,
    pub zero: D,
}

/// What looking for corners and smoothing between them asks of the numbers. See
/// [`analyze`](crate::corners::analyze).
pub struct BendCalls<U, E, FT, FH, FG, FK, FJ, FX, FP> {
    pub turn: FT,
    pub sharp: FH,
    pub gather: FG,
    pub strength: FK,
    pub jitter: FJ,
    pub relax: FX,
    pub effort: FP,
    pub zero: U,
    pub calm: E,
}

/// What fitting asks of the numbers. See
/// [`fit_arcs`](crate::vectorize::fit_arcs).
pub struct FitCalls<GA, GO, GP, GF> {
    pub apart: GA,
    pub on: GO,
    pub prune: GP,
    pub fit: GF,
}

/// The callbacks are functions.
pub open spec fn edge_calls_ok<
    P,
    N,
    D,
    FS: Fn(P, P, P) -> bool,
    FA: Fn(P, P) -> bool,
    FN: Fn(Option<(P, P)>) -> Option<N>,
    FM: Fn((u32, u32), P, N) -> Option<P>,
    FR: Fn(P, P, P, N) -> Option<P>,
    FE: Fn(P) -> (bool, bool),
    FV: Fn(D, P, P) -> D,
    FW: Fn(P, D, usize, Freedom) -> P,
    FL: Fn(P, P) -> P,
    FI: Fn(P, P) -> bool,
    FC: Fn(P, P) -> P,
>(e: EdgeCalls<D, FS, FA, FN, FM, FR, FE, FV, FW, FL, FI, FC>) -> bool {
    &&& pure3(e.straight)
    &&& pure2(e.apart)
    &&& pure1(e.normal)
    &&& pure3(e.settle)
    &&& pure4(e.relax)
    &&& pure1(e.edges)
    &&& pure3(e.add)
    &&& pure4(e.shift)
    &&& pure2(e.land)
    &&& pure2(e.within)
    &&& pure2(e.cap)
}

/// The callbacks are functions.
pub open spec fn bend_calls_ok<
    P,
    T,
    U,
    E,
    FT: Fn(P, P, P) -> Option<T>,
    FH: Fn(T) -> bool,
    FG: Fn(U, T) -> U,
    FK: Fn(U, usize) -> i64,
    FJ: Fn(E, T, T) -> E,
    FX: Fn(P, P, P, bool) -> P,
    FP: Fn(Option<(E, usize)>) -> usize,
>(b: BendCalls<U, E, FT, FH, FG, FK, FJ, FX, FP>) -> bool {
    &&& pure3(b.turn)
    &&& pure1(b.sharp)
    &&& pure2(b.gather)
    &&& pure2(b.strength)
    &&& pure3(b.jitter)
    &&& pure4(b.relax)
    &&& pure1(b.effort)
}

/// The callbacks can be called; what tells points apart is a function.
pub open spec fn fit_calls_ok<
    P,
    S,
    GA: Fn(P, P) -> bool,
    GO: Fn(P, P) -> bool,
    GP: Fn(&Vec<P>, &Vec<usize>) -> Vec<usize>,
    GF: Fn(&Vec<P>, &Vec<usize>, bool) -> Vec<Seg<P, S>>,
>(c: FitCalls<GA, GO, GP, GF>) -> bool {
    &&& pure2(c.apart)
    &&& pure2(c.on)
    &&& forall|p: &Vec<P>, k: &Vec<usize>| #[trigger] c.prune.requires((p, k))
    &&& forall|p: &Vec<P>, k: &Vec<usize>, closed: bool| #[trigger] c.fit.requires((p, k, closed))
}

/// `u` is `t` with its vertices on the edges that the anti-aliasing implies. It is
/// welded, and nothing is further from where it was than it may be.
pub open spec fn is_refined<
    P,
    N,
    D,
    FS: Fn(P, P, P) -> bool,
    FA: Fn(P, P) -> bool,
    FN: Fn(Option<(P, P)>) -> Option<N>,
    FM: Fn((u32, u32), P, N) -> Option<P>,
    FR: Fn(P, P, P, N) -> Option<P>,
    FE: Fn(P) -> (bool, bool),
    FV: Fn(D, P, P) -> D,
    FW: Fn(P, D, usize, Freedom) -> P,
    FL: Fn(P, P) -> P,
    FI: Fn(P, P) -> bool,
    FC: Fn(P, P) -> P,
>(
    e: EdgeCalls<D, FS, FA, FN, FM, FR, FE, FV, FW, FL, FI, FC>,
    cfg: SubpixelConfig,
    t: Topology<P>,
    u: Topology<P>,
) -> bool {
    &&& !cfg.enabled ==> u == t
    &&& cfg.enabled ==> {
        let places = refined_arcs(
            e.straight,
            e.apart,
            e.normal,
            e.settle,
            e.relax,
            cfg,
            t.arcs@,
        );
        &&& u.nodes@ == Seq::new(
            t.nodes@.len(),
            |v: int|
                node_place(
                    e.edges,
                    e.add,
                    e.shift,
                    e.within,
                    e.cap,
                    e.zero,
                    t.nodes@,
                    t.arcs@,
                    places,
                    v,
                ),
        )
        &&& forall|a: int|
            0 <= a < t.arcs@.len() ==> is_moved(
                t.arcs@[a],
                #[trigger] u.arcs@[a],
                landed(e.land, e.within, e.cap, t.arcs@[a].points@, places[a]),
                u.nodes@,
            )
    }
    &&& u.is_welded()
    &&& u.region_rings == t.region_rings
    &&& u.arcs@.len() == t.arcs@.len()
    &&& u.nodes@.len() == t.nodes@.len()
    &&& forall|v: int|
        0 <= v < t.nodes@.len() ==> is_near(e.within, t.nodes@[v], #[trigger] u.nodes@[v])
    &&& forall|a: int|
        0 <= a < t.arcs@.len() ==> all_near(e.within, t.arcs@[a], #[trigger] u.arcs@[a])
}

/// `u` is `t` with its corners marked and what is noisy between them smoothed. It
/// is welded, and no node has moved.
pub open spec fn is_bent<
    P,
    T,
    U,
    E,
    FT: Fn(P, P, P) -> Option<T>,
    FH: Fn(T) -> bool,
    FG: Fn(U, T) -> U,
    FK: Fn(U, usize) -> i64,
    FJ: Fn(E, T, T) -> E,
    FX: Fn(P, P, P, bool) -> P,
    FP: Fn(Option<(E, usize)>) -> usize,
>(
    b: BendCalls<U, E, FT, FH, FG, FK, FJ, FX, FP>,
    cfg: CornerConfig,
    t: Topology<P>,
    u: Topology<P>,
) -> bool {
    &&& u.is_welded()
    &&& u.nodes@ == t.nodes@
    &&& u.region_rings == t.region_rings
    &&& u.arcs@.len() == t.arcs@.len()
    &&& forall|a: int|
        0 <= a < t.arcs@.len() ==> is_analyzed(
            b.turn,
            b.sharp,
            b.gather,
            b.strength,
            b.jitter,
            b.relax,
            b.effort,
            b.zero,
            b.calm,
            cfg,
            t.arcs@[a],
            #[trigger] u.arcs@[a],
        )
}

/// `fitted` are the arcs of `t`, each fitted once.
pub open spec fn are_fits<
    P,
    S,
    GA: Fn(P, P) -> bool,
    GO: Fn(P, P) -> bool,
    GP: Fn(&Vec<P>, &Vec<usize>) -> Vec<usize>,
    GF: Fn(&Vec<P>, &Vec<usize>, bool) -> Vec<Seg<P, S>>,
>(
    c: FitCalls<GA, GO, GP, GF>,
    merge_pass: bool,
    t: Topology<P>,
    fitted: Seq<FittedArc<P, S>>,
) -> bool {
    &&& fitted.len() == t.arcs@.len()
    &&& forall|a: int|
        0 <= a < t.arcs@.len() ==> is_fit(
            c.apart,
            c.on,
            c.prune,
            c.fit,
            t.arcs@[a],
            merge_pass,
            #[trigger] fitted[a],
        )
}

/// The shapes that the fitted arcs of `t` draw.
pub open spec fn drawn_shapes<L, P, S>(
    seg: Segmentation<L>,
    t: Topology<P>,
    fitted: Seq<FittedArc<P, S>>,
    cfg: OutputConfig,
) -> Seq<ShapeView<P, S>> {
    let shapes = region_shapes(
        seg,
        t.region_rings@,
        fitted,
        cfg.recolor_regions,
        t.region_rings@.len() as int,
    );
    if cfg.group_by_color {
        grouped(shapes)
    } else {
        shapes
    }
}

/// `b` are the shapes `a` with every position taken through `f` and every length
/// through `g`.
pub open spec fn shapes_map<P, S, Q, R, F: Fn(P) -> Q, G: Fn(S) -> R>(
    f: F,
    g: G,
    a: Seq<ShapeView<P, S>>,
    b: Seq<ShapeView<Q, R>>,
) -> bool {
    &&& a.len() == b.len()
    &&& forall|i: int| 0 <= i < a.len() ==> shape_maps(f, g, a[i], #[trigger] b[i])
}

/// The number of corners of the arcs.
pub open spec fn corner_count<P>(arcs: Seq<Arc<P>>) -> nat
    decreases arcs.len(),
{
    if arcs.len() == 0 {
        0
    } else {
        corner_count(arcs.drop_last()) + arcs.last().corners@.len()
    }
}

/// Arcs of as many vertices each have as many vertices in all, and no more corners
/// than that where none has more corners than vertices.
proof fn lemma_corner_count<P, Q>(a: Seq<Arc<Q>>, b: Seq<Arc<P>>)
    requires
        a.len() == b.len(),
        forall|k: int| 0 <= k < b.len() ==> (#[trigger] b[k]).points@.len() == a[k].points@.len(),
    ensures
        vertex_count(b) == vertex_count(a),
        (forall|k: int|
            0 <= k < b.len() ==> (#[trigger] b[k]).corners@.len() <= b[k].points@.len())
            ==> corner_count(b) <= vertex_count(b),
    decreases b.len(),
{
    if b.len() > 0 {
        let (a1, b1) = (a.drop_last(), b.drop_last());
        assert forall|k: int| 0 <= k < b1.len() implies (#[trigger] b1[k]).points@.len()
            == a1[k].points@.len() by {
            assert(b1[k] == b[k] && a1[k] == a[k]);
        }
        lemma_corner_count(a1, b1);
        assert(b.last() == b[b.len() - 1]);
    }
}

proof fn lemma_corner_count_take<P>(arcs: Seq<Arc<P>>, k: int)
    requires
        0 <= k <= arcs.len(),
    ensures
        corner_count(arcs.take(k)) <= corner_count(arcs),
    decreases arcs.len(),
{
    if k < arcs.len() {
        assert(arcs.drop_last().take(k) =~= arcs.take(k));
        lemma_corner_count_take(arcs.drop_last(), k);
    } else {
        assert(arcs.take(k) =~= arcs);
    }
}

fn count_corners<P>(arcs: &Vec<Arc<P>>) -> (n: usize)
    requires
        corner_count(arcs@) <= usize::MAX,
    ensures
        n == corner_count(arcs@),
{
    let mut n: usize = 0;
    let mut k: usize = 0;
    while k < arcs.len()
        invariant
            k <= arcs@.len(),
            corner_count(arcs@) <= usize::MAX,
            n == corner_count(arcs@.take(k as int)),
        decreases arcs@.len() - k,
    {
        proof {
            lemma_corner_count_take(arcs@, k + 1);
            assert(arcs@.take(k + 1).drop_last() =~= arcs@.take(k as int));
        }
        n = n + arcs[k].corners.len();
        k = k + 1;
    }
    assert(arcs@.take(k as int) =~= arcs@);
    n
}

/// A stage of a trace.
#[derive(Clone, Copy, Debug, PartialEq, Eq, Structural)]
pub enum Stage {
    Topology,
    Subpixel,
    Corners,
    Fit,
    Assemble,
}

/// What a trace had to deal with.
#[derive(Clone, Copy, Debug, PartialEq, Eq, Structural)]
pub struct TraceStats {
    pub regions: usize,
    pub arcs: usize,
    pub contour_vertices: usize,
    pub corners: usize,
}

/// A traced document, and what tracing it had to deal with.
pub struct TraceResult<P, S> {
    pub image: VectorImage<P, S>,
    pub stats: TraceStats,
}

/// What the stages of a trace hand on.
pub ghost struct Stages<P, S> {
    pub built: Topology<GridPoint>,
    pub lifted: Topology<P>,
    pub refined: Topology<P>,
    pub bent: Topology<P>,
    pub fitted: Seq<FittedArc<P, S>>,
}

/// The stages of tracing the regions of `seg`, in their order.
pub open spec fn are_stages<
    L,
    P,
    S,
    N,
    D,
    T,
    U,
    E,
    F0: Fn(GridPoint) -> P,
    FS: Fn(P, P, P) -> bool,
    FA: Fn(P, P) -> bool,
    FN: Fn(Option<(P, P)>) -> Option<N>,
    FM: Fn((u32, u32), P, N) -> Option<P>,
    FR: Fn(P, P, P, N) -> Option<P>,
    FE: Fn(P) -> (bool, bool),
    FV: Fn(D, P, P) -> D,
    FW: Fn(P, D, usize, Freedom) -> P,
    FL: Fn(P, P) -> P,
    FI: Fn(P, P) -> bool,
    FC: Fn(P, P) -> P,
    FT: Fn(P, P, P) -> Option<T>,
    FH: Fn(T) -> bool,
    FG: Fn(U, T) -> U,
    FK: Fn(U, usize) -> i64,
    FJ: Fn(E, T, T) -> E,
    FX: Fn(P, P, P, bool) -> P,
    FP: Fn(Option<(E, usize)>) -> usize,
    GA: Fn(P, P) -> bool,
    GO: Fn(P, P) -> bool,
    GP: Fn(&Vec<P>, &Vec<usize>) -> Vec<usize>,
    GF: Fn(&Vec<P>, &Vec<usize>, bool) -> Vec<Seg<P, S>>,
>(
    lift: F0,
    e: EdgeCalls<D, FS, FA, FN, FM, FR, FE, FV, FW, FL, FI, FC>,
    b: BendCalls<U, E, FT, FH, FG, FK, FJ, FX, FP>,
    c: FitCalls<GA, GO, GP, GF>,
    seg: Segmentation<L>,
    cfg: VectorizeConfig,
    s: Stages<P, S>,
) -> bool {
    &&& is_topology_of(seg.grid(), seg.region_area@.len() as int, s.built)
    &&& is_lifted(lift, s.built, s.lifted)
    &&& s.lifted.is_welded()
    &&& is_refined(e, cfg.subpixel, s.lifted, s.refined)
    &&& is_bent(b, cfg.corners, s.refined, s.bent)
    &&& are_fits(c, cfg.fit.merge_pass, s.bent, s.fitted)
}

/// Arcs can be walked in both directions.
proof fn lemma_short_arcs<L, P, F0: Fn(GridPoint) -> P>(
    seg: Segmentation<L>,
    lift: F0,
    t: Topology<GridPoint>,
    u: Topology<P>,
)
    requires
        seg.traceable(),
        is_lifted(lift, t, u),
        forall|a: int|
            0 <= a < t.arcs@.len() ==> (#[trigger] t.arcs@[a]).points@.len() <= 2 * ((seg.width + 1)
                * (seg.height + 1)) + 1,
    ensures
        forall|a: int| 0 <= a < u.arcs@.len() ==> (#[trigger] u.arcs@[a]).points@.len()
            <= isize::MAX,
{
    let n = (seg.width + 1) * (seg.height + 1);
    assert(2 * n + 1 <= isize::MAX) by {
        assert(2 * n < u32::MAX && 4 * n <= usize::MAX);
        assert(usize::MAX == 2 * isize::MAX + 1);
    }
    assert forall|a: int| 0 <= a < u.arcs@.len() implies (#[trigger] u.arcs@[a]).points@.len()
        <= isize::MAX by {
        assert(t.arcs@[a].points@.len() <= 2 * n + 1);
    }
}

proof fn lemma_maps_welded<P, S, Q, R, F: Fn(P) -> Q, G: Fn(S) -> R>(
    f: F,
    g: G,
    a: Seq<ShapeView<P, S>>,
    b: Seq<ShapeView<Q, R>>,
)
    requires
        pure1(f),
        shapes_map(f, g, a, b),
        all_welded(a),
    ensures
        all_welded(b),
{
    assert forall|i: int, j: int|
        0 <= i < b.len() && 0 <= j < b[i].subpaths.len() implies is_welded_path(
        #[trigger] b[i].subpaths[j],
    ) by {
        assert(shape_maps(f, g, a[i], b[i]));
        assert(is_welded_path(a[i].subpaths[j]));
        law_mapping_keeps_welds(f, g, a[i].subpaths[j], b[i].subpaths[j]);
    }
}

/// Trace the regions of a segmented image into a vector document.
///
/// `lift` takes a lattice corner to a position. `place` and `length` scale and
/// round the finished drawing. `mark` is told when a stage is done.
pub fn trace<
    L,
    P: Copy,
    S: Copy,
    N: Copy,
    D: Copy,
    T: Copy,
    U: Copy,
    E: Copy,
    F0: Fn(GridPoint) -> P,
    FS: Fn(P, P, P) -> bool,
    FA: Fn(P, P) -> bool,
    FN: Fn(Option<(P, P)>) -> Option<N>,
    FM: Fn((u32, u32), P, N) -> Option<P>,
    FR: Fn(P, P, P, N) -> Option<P>,
    FE: Fn(P) -> (bool, bool),
    FV: Fn(D, P, P) -> D,
    FW: Fn(P, D, usize, Freedom) -> P,
    FL: Fn(P, P) -> P,
    FI: Fn(P, P) -> bool,
    FC: Fn(P, P) -> P,
    FT: Fn(P, P, P) -> Option<T>,
    FH: Fn(T) -> bool,
    FG: Fn(U, T) -> U,
    FK: Fn(U, usize) -> i64,
    FJ: Fn(E, T, T) -> E,
    FX: Fn(P, P, P, bool) -> P,
    FP: Fn(Option<(E, usize)>) -> usize,
    GA: Fn(P, P) -> bool,
    GO: Fn(P, P) -> bool,
    GP: Fn(&Vec<P>, &Vec<usize>) -> Vec<usize>,
    GF: Fn(&Vec<P>, &Vec<usize>, bool) -> Vec<Seg<P, S>>,
    FO: Fn(P) -> P,
    FZ: Fn(S) -> S,
    FY: Fn(Stage),
>(
    lift: &F0,
    e: &EdgeCalls<D, FS, FA, FN, FM, FR, FE, FV, FW, FL, FI, FC>,
    b: &BendCalls<U, E, FT, FH, FG, FK, FJ, FX, FP>,
    c: &FitCalls<GA, GO, GP, GF>,
    place: &FO,
    length: &FZ,
    mark: &FY,
    seg: &Segmentation<L>,
    cfg: &VectorizeConfig,
    width: S,
    height: S,
) -> (r: TraceResult<P, S>)
    requires
        seg.traceable(),
        seg.region_color@.len() == seg.region_area@.len(),
        forall|k: int|
            0 <= k < cfg.corners.scales@.len() ==> (#[trigger] cfg.corners.scales@[k])
                <= isize::MAX,
        pure1(*lift),
        edge_calls_ok(*e),
        bend_calls_ok(*b),
        fit_calls_ok(*c),
        pure1(*place),
        pure1(*length),
        forall|s: Stage| mark.requires((s,)),
    ensures
        length.ensures((width,), r.image.width),
        length.ensures((height,), r.image.height),
        r.image.background == cfg.output.background,
        exists|s: Stages<P, S>| #[trigger]
            are_stages(*lift, *e, *b, *c, *seg, *cfg, s) && shapes_map(
                *place,
                *length,
                drawn_shapes(*seg, s.bent, s.fitted, cfg.output),
                shapes_of(r.image.shapes@),
            ) && r.stats.arcs == s.built.arcs@.len() && r.stats.contour_vertices == vertex_count(
                s.built.arcs@,
            ) && r.stats.corners == corner_count(s.bent.arcs@),
        r.stats.regions == seg.region_area@.len(),
        all_welded(shapes_of(r.image.shapes@)),
{
    let built: Topology<GridPoint> = build(seg);
    let ghost t0 = built;
    proof {
        let n = seg.region_area@.len() as int;
        law_traced_arcs_are_welded(seg.grid(), n, t0);
        law_traced_rings_can_be_assembled(seg.grid(), n, t0);
    }
    let contour_vertices: usize = built.total_arc_vertices();
    let mut topo: Topology<P> = built.lift(lift);
    mark(Stage::Topology);
    let ghost t1 = topo;
    proof {
        lemma_short_arcs(*seg, *lift, t0, t1);
    }
    refine(
        &e.straight,
        &e.apart,
        &e.normal,
        &e.settle,
        &e.relax,
        &e.edges,
        &e.add,
        &e.shift,
        &e.land,
        &e.within,
        &e.cap,
        e.zero,
        &mut topo,
        &cfg.subpixel,
    );
    mark(Stage::Subpixel);
    let ghost t2 = topo;
    proof {
        assert(is_refined(*e, cfg.subpixel, t1, t2));
        assert forall|a: int| 0 <= a < t2.arcs@.len() implies (
        #[trigger] t2.arcs@[a]).points@.len() >= 2 && t2.arcs@[a].start_node < t2.nodes@.len()
            && t2.arcs@[a].end_node < t2.nodes@.len() && t2.arcs@[a].points@.len()
            <= isize::MAX by {
            assert(t1.arcs@[a].points@.len() >= 2);
            assert(all_near(e.within, t1.arcs@[a], t2.arcs@[a]));
        }
    }
    analyze(
        &b.turn,
        &b.sharp,
        &b.gather,
        &b.strength,
        &b.jitter,
        &b.relax,
        &b.effort,
        b.zero,
        b.calm,
        &mut topo,
        &cfg.corners,
    );
    mark(Stage::Corners);
    let ghost t3 = topo;
    proof {
        assert(is_bent(*b, cfg.corners, t2, t3));
        assert forall|a: int| 0 <= a < t3.arcs@.len() implies (
        #[trigger] t3.arcs@[a]).points@.len() > 0 && t3.arcs@[a].corners@.len()
            <= t3.arcs@[a].points@.len() && t3.arcs@[a].points@.len()
            == t0.arcs@[a].points@.len() by {
            assert(t2.arcs@[a].points@.len() >= 2);
            assert(is_lifted_arc(*lift, t0.arcs@[a], t1.arcs@[a]));
            assert(all_near(e.within, t1.arcs@[a], t2.arcs@[a]));
            law_corners_are_vertices(
                b.turn,
                b.sharp,
                b.gather,
                b.strength,
                b.jitter,
                b.relax,
                b.effort,
                b.zero,
                b.calm,
                cfg.corners,
                t2.arcs@[a],
                t3.arcs@[a],
            );
        }
        lemma_corner_count(t0.arcs@, t3.arcs@);
    }
    let corners: usize = count_corners(&topo.arcs);
    let fitted: Vec<FittedArc<P, S>> = fit_arcs(
        &c.apart,
        &c.on,
        &c.prune,
        &c.fit,
        &topo.arcs,
        cfg.fit.merge_pass,
    );
    mark(Stage::Fit);
    let drawing: VectorImage<P, S> = assemble(
        &topo.region_rings,
        seg,
        &fitted,
        cfg.output.recolor_regions,
        cfg.output.group_by_color,
        width,
        height,
        cfg.output.background,
    );
    let ghost s = Stages { built: t0, lifted: t1, refined: t2, bent: t3, fitted: fitted@ };
    let image: VectorImage<P, S> = drawing.map(place, length);
    mark(Stage::Assemble);
    proof {
        assert(are_stages(*lift, *e, *b, *c, *seg, *cfg, s));
        let before = shapes_of(drawing.shapes@);
        let after = shapes_of(image.shapes@);
        assert forall|i: int| 0 <= i < before.len() implies shape_maps(
            *place,
            *length,
            before[i],
            #[trigger] after[i],
        ) by {
            assert(after[i] == image.shapes@[i]@);
        }
        law_documents_are_welded(*seg, t3.region_rings@, fitted@, cfg.output.recolor_regions);
        lemma_maps_welded(*place, *length, before, after);
    }
    TraceResult {
        image,
        stats: TraceStats {
            regions: seg.region_count(),
            arcs: topo.arcs.len(),
            contour_vertices,
            corners,
        },
    }
}

/// The outlines of a trace have no gaps. Where the commands for a contour end at
/// its last point, each arc of every ring begins exactly where the one before it
/// ends, and closing the ring moves nothing. Left out are traces with an arc whose
/// last point is dropped because the one before it is no different.
pub proof fn law_traces_have_no_gaps<
    L,
    P,
    S,
    N,
    D,
    T,
    U,
    E,
    F0: Fn(GridPoint) -> P,
    FS: Fn(P, P, P) -> bool,
    FA: Fn(P, P) -> bool,
    FN: Fn(Option<(P, P)>) -> Option<N>,
    FM: Fn((u32, u32), P, N) -> Option<P>,
    FR: Fn(P, P, P, N) -> Option<P>,
    FE: Fn(P) -> (bool, bool),
    FV: Fn(D, P, P) -> D,
    FW: Fn(P, D, usize, Freedom) -> P,
    FL: Fn(P, P) -> P,
    FI: Fn(P, P) -> bool,
    FC: Fn(P, P) -> P,
    FT: Fn(P, P, P) -> Option<T>,
    FH: Fn(T) -> bool,
    FG: Fn(U, T) -> U,
    FK: Fn(U, usize) -> i64,
    FJ: Fn(E, T, T) -> E,
    FX: Fn(P, P, P, bool) -> P,
    FP: Fn(Option<(E, usize)>) -> usize,
    GA: Fn(P, P) -> bool,
    GO: Fn(P, P) -> bool,
    GP: Fn(&Vec<P>, &Vec<usize>) -> Vec<usize>,
    GF: Fn(&Vec<P>, &Vec<usize>, bool) -> Vec<Seg<P, S>>,
>(
    lift: F0,
    e: EdgeCalls<D, FS, FA, FN, FM, FR, FE, FV, FW, FL, FI, FC>,
    b: BendCalls<U, E, FT, FH, FG, FK, FJ, FX, FP>,
    c: FitCalls<GA, GO, GP, GF>,
    seg: Segmentation<L>,
    cfg: VectorizeConfig,
    s: Stages<P, S>,
    x: int,
    q: int,
)
    requires
        seg.wf(),
        are_stages(lift, e, b, c, seg, cfg, s),
        0 <= x < seg.region_area@.len(),
        0 <= q < s.built.region_rings@[x]@.len(),
        forall|a: int|
            0 <= a < s.bent.arcs@.len() ==> {
                let pts = (#[trigger] s.bent.arcs@[a]).points@;
                let left = deduped(c.apart, pts, pts.len() as int);
                left.len() >= 2 && left.last() == pts.last()
            },
        forall|p: Vec<P>, k: Vec<usize>, closed: bool, segs: Vec<Seg<P, S>>|
            p@.len() >= 2 && #[trigger] c.fit.ensures((&p, &k, closed), segs) ==> segs@.len() > 0
                && path_end(p@[0], segs@) == p@.last(),
    ensures
        s.bent.region_rings == s.built.region_rings,
        ({
            let refs = s.built.region_rings@[x]@[q].refs@;
            &&& forall|k: int|
                0 <= k < refs.len() - 1 ==> path_end(
                    ref_from(s.fitted, #[trigger] refs[k]),
                    ref_segs(s.fitted, refs[k]),
                ) == ref_from(s.fitted, refs[k + 1])
            &&& ring_path(s.fitted, refs) == Some(
                PathView {
                    start: ref_from(s.fitted, refs[0]),
                    segs: outline(s.fitted, refs, refs.len() as int),
                    closed: true,
                },
            )
        }),
{
    let n = seg.region_area@.len() as int;
    let arcs = s.built.arcs@;
    let refs = s.built.region_rings@[x]@[q].refs@;
    law_traced_arcs_are_welded(seg.grid(), n, s.built);
    law_traced_rings_can_be_assembled(seg.grid(), n, s.built);
    law_rings_are_closed(seg.grid(), n, s.built, x, q);
    assert forall|a: int| 0 <= a < arcs.len() implies {
        let pts = (#[trigger] s.bent.arcs@[a]).points@;
        &&& pts.len() >= 2
        &&& s.bent.arcs@[a].start_node == arcs[a].start_node
        &&& s.bent.arcs@[a].end_node == arcs[a].end_node
    } by {
        assert(arcs[a].points@.len() >= 2);
        assert(is_lifted_arc(lift, arcs[a], s.lifted.arcs@[a]));
        assert(all_near(e.within, s.lifted.arcs@[a], s.refined.arcs@[a]));
        if cfg.subpixel.enabled {
            let places = refined_arcs(
                e.straight,
                e.apart,
                e.normal,
                e.settle,
                e.relax,
                cfg.subpixel,
                s.lifted.arcs@,
            );
            assert(is_moved(
                s.lifted.arcs@[a],
                s.refined.arcs@[a],
                landed(e.land, e.within, e.cap, s.lifted.arcs@[a].points@, places[a]),
                s.refined.nodes@,
            ));
        }
    }
    law_fitting_keeps_to_the_nodes(
        c.apart,
        c.on,
        c.prune,
        c.fit,
        s.bent.arcs@,
        cfg.fit.merge_pass,
        s.bent.nodes@,
        s.fitted,
    );
    assert(fits_nodes(arcs, s.bent.nodes@, s.fitted)) by {
        assert forall|a: int| 0 <= a < s.fitted.len() implies {
            &&& (#[trigger] s.fitted[a]).segs@.len() > 0
            &&& s.fitted[a].start == s.bent.nodes@[arcs[a].start_node as int]
            &&& path_end(s.fitted[a].start, s.fitted[a].segs@)
                == s.bent.nodes@[arcs[a].end_node as int]
        } by {
            assert(s.bent.arcs@[a].start_node == arcs[a].start_node);
        }
    }
    assert forall|i: int| 0 <= i < refs.len() implies (#[trigger] refs[i]).arc < arcs.len() by {
        assert(s.built.region_rings@[x]@[q].refs@[i].arc < arcs.len());
    }
    law_outlines_have_no_gaps(arcs, s.bent.nodes@, s.fitted, refs);
}

} // verus!
