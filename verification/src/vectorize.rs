//! The end of the tracing pipeline: fitted arcs in, vector document out.
//!
//! Each arc is fitted once, not once per region, and each region's outline is
//! put together from the fitted arcs, an arc being referenced forwards by one
//! region and backwards by its neighbour. That is what makes shared borders
//! identical rather than merely similar.

use crate::color::Rgba8;
use crate::model::{
    group_by_color, grouped, law_grouping_keeps_paths_in_their_color, path_maps, paths_colored,
    paths_of, seg_maps, shapes_of, Shape, ShapeView, VectorImage,
};
use crate::cracks::Arc;
use crate::fitting::{are_remapped, dedupe, deduped, remap_corners};
use crate::lattice::GridPoint;
use crate::path::{
    law_reversal_swaps_ends, path_end, reverse_segs, seg_end, seg_ending, seg_reversed, seg_start,
    segs_reversed, PathView, Seg, SubPath,
};
use crate::pure::{pure1, pure2};
use crate::rings::{
    is_closed_chain, is_ref, loops_of, ref_end, ref_start, region_rings_ok, ring_ok, ArcRef, Ring,
};
use crate::segment::{RegionGrid, Segmentation};
use crate::topology::{is_topology_of, Topology};
use vstd::prelude::*;

verus! {

/// One fitted arc: the commands, plus the exact start point they begin from.
pub struct FittedArc<P, S> {
    pub start: P,
    pub segs: Vec<Seg<P, S>>,
}

/// `corners` are the corners that a contour is fitted with: those of the arc, as
/// indices into the points that are left, and pruned where that is asked for.
pub open spec fn are_fit_corners<
    P,
    FO: Fn(P, P) -> bool,
    FP: Fn(&Vec<P>, &Vec<usize>) -> Vec<usize>,
>(
    on: FO,
    prune: FP,
    arc: Arc<P>,
    merge_pass: bool,
    pts: Vec<P>,
    mapped: Vec<usize>,
    corners: Vec<usize>,
) -> bool {
    &&& are_remapped(on, arc.points@, pts@, arc.corners@, mapped@)
    &&& if merge_pass && mapped@.len() > 2 {
        prune.ensures((&pts, &mapped), corners)
    } else {
        corners == mapped
    }
}

/// `f` is `arc`, fitted. An arc of which only one point is left is not drawn.
pub open spec fn is_fit<
    P,
    S,
    FA: Fn(P, P) -> bool,
    FO: Fn(P, P) -> bool,
    FP: Fn(&Vec<P>, &Vec<usize>) -> Vec<usize>,
    FF: Fn(&Vec<P>, &Vec<usize>, bool) -> Vec<Seg<P, S>>,
>(apart: FA, on: FO, prune: FP, fit: FF, arc: Arc<P>, merge_pass: bool, f: FittedArc<P, S>) -> bool {
    let left = deduped(apart, arc.points@, arc.points@.len() as int);
    if left.len() < 2 {
        f.start == arc.points@[0] && f.segs@.len() == 0
    } else {
        &&& f.start == left[0]
        &&& exists|pts: Vec<P>, mapped: Vec<usize>, corners: Vec<usize>|
            pts@ == left && #[trigger] are_fit_corners(
                on,
                prune,
                arc,
                merge_pass,
                pts,
                mapped,
                corners,
            ) && fit.ensures((&pts, &corners, arc.loop_arc && left.len() > 2), f.segs)
    }
}

/// Fit one arc.
fn fit_arc<
    P: Copy,
    S: Copy,
    FA: Fn(P, P) -> bool,
    FO: Fn(P, P) -> bool,
    FP: Fn(&Vec<P>, &Vec<usize>) -> Vec<usize>,
    FF: Fn(&Vec<P>, &Vec<usize>, bool) -> Vec<Seg<P, S>>,
>(apart: &FA, on: &FO, prune: &FP, fit: &FF, arc: &Arc<P>, merge_pass: bool) -> (f: FittedArc<P, S>)
    requires
        pure2(*apart),
        pure2(*on),
        forall|p: &Vec<P>, c: &Vec<usize>| #[trigger] prune.requires((p, c)),
        forall|p: &Vec<P>, c: &Vec<usize>, closed: bool| #[trigger] fit.requires((p, c, closed)),
        arc.points@.len() > 0,
    ensures
        is_fit(*apart, *on, *prune, *fit, *arc, merge_pass, f),
{
    // De-duplicating can shift indices, so corners are remapped by matching
    // positions rather than carried across blindly.
    let pts: Vec<P> = dedupe(apart, &arc.points);
    if pts.len() < 2 {
        return FittedArc { start: arc.points[0], segs: Vec::new() };
    }
    let closed: bool = arc.loop_arc && pts.len() > 2;
    let mapped: Vec<usize> = remap_corners(on, &arc.points, &pts, &arc.corners);
    if merge_pass && mapped.len() > 2 {
        let corners: Vec<usize> = prune(&pts, &mapped);
        assert(are_fit_corners(*on, *prune, *arc, merge_pass, pts, mapped, corners));
        FittedArc { start: pts[0], segs: fit(&pts, &corners, closed) }
    } else {
        assert(are_fit_corners(*on, *prune, *arc, merge_pass, pts, mapped, mapped));
        FittedArc { start: pts[0], segs: fit(&pts, &mapped, closed) }
    }
}

/// Fit every arc once. `apart` tells whether two points are distinct, and `on`
/// whether a point lies on another; `prune` drops the corners that a contour does
/// not need, and `fit` gives the commands for a contour with its corners, closed
/// or not.
pub fn fit_arcs<
    P: Copy,
    S: Copy,
    FA: Fn(P, P) -> bool,
    FO: Fn(P, P) -> bool,
    FP: Fn(&Vec<P>, &Vec<usize>) -> Vec<usize>,
    FF: Fn(&Vec<P>, &Vec<usize>, bool) -> Vec<Seg<P, S>>,
>(apart: &FA, on: &FO, prune: &FP, fit: &FF, arcs: &Vec<Arc<P>>, merge_pass: bool) -> (fitted: Vec<
    FittedArc<P, S>,
>)
    requires
        pure2(*apart),
        pure2(*on),
        forall|p: &Vec<P>, c: &Vec<usize>| #[trigger] prune.requires((p, c)),
        forall|p: &Vec<P>, c: &Vec<usize>, closed: bool| #[trigger] fit.requires((p, c, closed)),
        forall|a: int| 0 <= a < arcs@.len() ==> (#[trigger] arcs@[a]).points@.len() > 0,
    ensures
        fitted@.len() == arcs@.len(),
        forall|a: int|
            0 <= a < arcs@.len() ==> is_fit(
                *apart,
                *on,
                *prune,
                *fit,
                arcs@[a],
                merge_pass,
                #[trigger] fitted@[a],
            ),
{
    let mut fitted: Vec<FittedArc<P, S>> = Vec::new();
    let mut a: usize = 0;
    while a < arcs.len()
        invariant
            a <= arcs@.len(),
            pure2(*apart),
            pure2(*on),
            forall|p: &Vec<P>, c: &Vec<usize>| #[trigger] prune.requires((p, c)),
            forall|p: &Vec<P>, c: &Vec<usize>, closed: bool|
                #[trigger] fit.requires((p, c, closed)),
            forall|a: int| 0 <= a < arcs@.len() ==> (#[trigger] arcs@[a]).points@.len() > 0,
            fitted@.len() == a,
            forall|b: int|
                0 <= b < a ==> is_fit(
                    *apart,
                    *on,
                    *prune,
                    *fit,
                    arcs@[b],
                    merge_pass,
                    #[trigger] fitted@[b],
                ),
        decreases arcs@.len() - a,
    {
        assert(arcs@[a as int].points@.len() > 0);
        fitted.push(fit_arc(apart, on, prune, fit, &arcs[a], merge_pass));
        a = a + 1;
    }
    fitted
}

/// The first point is always left.
proof fn lemma_first_is_left<P, FA: Fn(P, P) -> bool>(apart: FA, pts: Seq<P>, k: int)
    requires
        1 <= k <= pts.len(),
    ensures
        deduped(apart, pts, k).len() > 0,
        deduped(apart, pts, k)[0] == pts[0],
    decreases k,
{
    if k > 1 {
        lemma_first_is_left(apart, pts, k - 1);
    } else {
        assert(deduped(apart, pts, 0) =~= Seq::empty());
    }
}

/// What a directed reference contributes to an outline.
pub open spec fn ref_segs<P, S>(fitted: Seq<FittedArc<P, S>>, r: ArcRef) -> Seq<Seg<P, S>> {
    let f = fitted[r.arc as int];
    if r.reversed {
        segs_reversed(f.start, f.segs@)
    } else {
        f.segs@
    }
}

/// Where a directed reference begins.
pub open spec fn ref_from<P, S>(fitted: Seq<FittedArc<P, S>>, r: ArcRef) -> P {
    let f = fitted[r.arc as int];
    if r.reversed {
        path_end(f.start, f.segs@)
    } else {
        f.start
    }
}

/// The commands of the first `k` references, one after the other.
pub open spec fn outline<P, S>(
    fitted: Seq<FittedArc<P, S>>,
    refs: Seq<ArcRef>,
    k: int,
) -> Seq<Seg<P, S>>
    decreases k,
{
    if k <= 0 {
        Seq::empty()
    } else {
        outline(fitted, refs, k - 1) + ref_segs(fitted, refs[k - 1])
    }
}

/// The start of the first reference, among the first `k`, that has any commands.
pub open spec fn outline_start<P, S>(
    fitted: Seq<FittedArc<P, S>>,
    refs: Seq<ArcRef>,
    k: int,
) -> Option<P>
    decreases k,
{
    if k <= 0 {
        None
    } else {
        match outline_start(fitted, refs, k - 1) {
            Some(p) => Some(p),
            None => if fitted[refs[k - 1].arc as int].segs@.len() > 0 {
                Some(ref_from(fitted, refs[k - 1]))
            } else {
                None
            },
        }
    }
}

/// The closed subpath of a ring: the outline of its references, with the end of
/// the last command moved onto the start. `None` where no arc has any commands.
pub open spec fn ring_path<P, S>(
    fitted: Seq<FittedArc<P, S>>,
    refs: Seq<ArcRef>,
) -> Option<PathView<P, S>> {
    let segs = outline(fitted, refs, refs.len() as int);
    match outline_start(fitted, refs, refs.len() as int) {
        Some(start) => Some(
            PathView {
                start,
                segs: segs.update(segs.len() - 1, seg_ending(segs.last(), start)),
                closed: true,
            },
        ),
        None => None,
    }
}

/// There is a start exactly when there are commands.
proof fn lemma_outline_start<P, S>(fitted: Seq<FittedArc<P, S>>, refs: Seq<ArcRef>, k: int)
    requires
        0 <= k <= refs.len(),
    ensures
        outline_start(fitted, refs, k) is Some <==> outline(fitted, refs, k).len() > 0,
    decreases k,
{
    if k > 0 {
        lemma_outline_start(fitted, refs, k - 1);
    }
}

fn append_segs<P: Copy, S: Copy>(segs: &mut Vec<Seg<P, S>>, more: &Vec<Seg<P, S>>)
    ensures
        final(segs)@ == old(segs)@ + more@,
{
    let ghost s0 = segs@;
    let mut k: usize = 0;
    assert(s0 + more@.take(0) =~= s0);
    while k < more.len()
        invariant
            k <= more@.len(),
            segs@ == s0 + more@.take(k as int),
        decreases more@.len() - k,
    {
        segs.push(more[k]);
        assert(s0 + more@.take(k + 1) =~= (s0 + more@.take(k as int)).push(more@[k as int]));
        k = k + 1;
    }
    assert(more@.take(k as int) =~= more@);
}

/// Concatenate fitted arcs into one closed subpath.
pub fn build_subpath<P: Copy, S: Copy>(
    refs: &Vec<ArcRef>,
    fitted: &Vec<FittedArc<P, S>>,
) -> (path: Option<SubPath<P, S>>)
    requires
        forall|k: int| 0 <= k < refs@.len() ==> (#[trigger] refs@[k]).arc < fitted@.len(),
    ensures
        path is Some <==> ring_path(fitted@, refs@) is Some,
        path matches Some(p) ==> p@ == ring_path(fitted@, refs@)->0,
{
    let mut segs: Vec<Seg<P, S>> = Vec::new();
    let mut start: Option<P> = None;
    let mut k: usize = 0;
    while k < refs.len()
        invariant
            k <= refs@.len(),
            forall|k: int| 0 <= k < refs@.len() ==> (#[trigger] refs@[k]).arc < fitted@.len(),
            segs@ == outline(fitted@, refs@, k as int),
            start == outline_start(fitted@, refs@, k as int),
        decreases refs@.len() - k,
    {
        let r: ArcRef = refs[k];
        assert(refs@[k as int].arc < fitted@.len());
        let f: &FittedArc<P, S> = &fitted[r.arc as usize];
        let n: usize = f.segs.len();
        if n > 0 {
            let from: P = if r.reversed {
                f.segs[n - 1].end()
            } else {
                f.start
            };
            if start.is_none() {
                start = Some(from);
            }
            if r.reversed {
                let back: Vec<Seg<P, S>> = reverse_segs(f.start, &f.segs);
                append_segs(&mut segs, &back);
            } else {
                append_segs(&mut segs, &f.segs);
            }
        } else {
            assert(segs@ + ref_segs(fitted@, r) =~= segs@);
        }
        k = k + 1;
    }
    proof {
        lemma_outline_start(fitted@, refs@, k as int);
    }
    match start {
        Some(from) => {
            // Weld the ring shut, so that the exporter emits an exact close.
            let n: usize = segs.len();
            let mut last: Seg<P, S> = segs[n - 1];
            last.set_end(from);
            segs.set(n - 1, last);
            Some(SubPath { start: from, segs, closed: true })
        },
        None => None,
    }
}

/// Every subpath is closed and ends exactly where it starts.
pub proof fn law_subpaths_are_welded<P, S>(fitted: Seq<FittedArc<P, S>>, refs: Seq<ArcRef>)
    ensures
        ring_path(fitted, refs) matches Some(p) ==> p.closed && p.segs.len() > 0 && path_end(
            p.start,
            p.segs,
        ) == p.start,
{
    lemma_outline_start(fitted, refs, refs.len() as int);
}

/// The two regions on either side of an arc draw the same curve, one backwards.
pub proof fn law_border_is_drawn_alike<P, S>(fitted: Seq<FittedArc<P, S>>, arc: u32)
    requires
        arc < fitted.len(),
    ensures
        ({
            let fwd = ArcRef { arc, reversed: false };
            let rev = ArcRef { arc, reversed: true };
            &&& ref_segs(fitted, rev) == segs_reversed(ref_from(fitted, fwd), ref_segs(fitted, fwd))
            &&& ref_segs(fitted, fwd) == segs_reversed(ref_from(fitted, rev), ref_segs(fitted, rev))
        }),
{
    let f = fitted[arc as int];
    crate::path::law_reversal_is_an_involution(f.start, f.segs@);
}

/// The subpaths of the first `k` rings of a region.
pub open spec fn ring_paths<P, S>(
    fitted: Seq<FittedArc<P, S>>,
    rings: Seq<Ring>,
    k: int,
) -> Seq<PathView<P, S>>
    decreases k,
{
    if k <= 0 {
        Seq::empty()
    } else {
        let rest = ring_paths(fitted, rings, k - 1);
        match ring_path(fitted, rings[k - 1].refs@) {
            Some(p) => rest.push(p),
            None => rest,
        }
    }
}

/// The fill of a region: its own mean colour, made opaque, or that of its
/// palette entry.
pub open spec fn fill_of<L>(seg: Segmentation<L>, region: int, recolor: bool) -> Rgba8 {
    if recolor {
        Rgba8 { a: 255, ..seg.region_color@[region] }
    } else {
        seg.palette.entries@[seg.region_label@[region] as int].color
    }
}

/// The shapes of the first `k` regions. Transparent regions are simply not
/// painted: because the document is a planar subdivision, nothing else was
/// covering them.
pub open spec fn region_shapes<L, P, S>(
    seg: Segmentation<L>,
    rings: Seq<Vec<Ring>>,
    fitted: Seq<FittedArc<P, S>>,
    recolor: bool,
    k: int,
) -> Seq<ShapeView<P, S>>
    decreases k,
{
    if k <= 0 {
        Seq::empty()
    } else {
        let rest = region_shapes(seg, rings, fitted, recolor, k - 1);
        let paths = ring_paths(fitted, rings[k - 1]@, rings[k - 1]@.len() as int);
        if seg.unpainted((k - 1) as u32) || paths.len() == 0 {
            rest
        } else {
            rest.push(ShapeView { color: fill_of(seg, k - 1, recolor), subpaths: paths })
        }
    }
}

/// Every reference in the rings is to one of `n` arcs.
pub open spec fn rings_refer(rings: Seq<Vec<Ring>>, n: int) -> bool {
    forall|x: int, q: int, k: int|
        0 <= x < rings.len() && 0 <= q < rings[x]@.len() && 0 <= k < rings[x]@[q].refs@.len() ==> (
        #[trigger] rings[x]@[q].refs@[k]).arc < n
}

/// Put the regions together from the fitted arcs.
pub fn assemble<L, P: Copy, S: Copy>(
    region_rings: &Vec<Vec<Ring>>,
    seg: &Segmentation<L>,
    fitted: &Vec<FittedArc<P, S>>,
    recolor_regions: bool,
    merge_colors: bool,
    width: S,
    height: S,
    background: Option<Rgba8>,
) -> (image: VectorImage<P, S>)
    requires
        seg.wf(),
        seg.region_color@.len() == seg.region_area@.len(),
        region_rings@.len() == seg.region_area@.len(),
        rings_refer(region_rings@, fitted@.len() as int),
    ensures
        image.width == width,
        image.height == height,
        image.background == background,
        ({
            let shapes = region_shapes(
                *seg,
                region_rings@,
                fitted@,
                recolor_regions,
                region_rings@.len() as int,
            );
            shapes_of(image.shapes@) == if merge_colors {
                grouped(shapes)
            } else {
                shapes
            }
        }),
{
    let mut shapes: Vec<Shape<P, S>> = Vec::new();
    assert(shapes_of(shapes@) =~= Seq::<ShapeView<P, S>>::empty());
    let mut region: usize = 0;
    while region < region_rings.len()
        invariant
            region <= region_rings@.len(),
            seg.wf(),
            seg.region_color@.len() == seg.region_area@.len(),
            region_rings@.len() == seg.region_area@.len(),
            rings_refer(region_rings@, fitted@.len() as int),
            shapes_of(shapes@) == region_shapes(
                *seg,
                region_rings@,
                fitted@,
                recolor_regions,
                region as int,
            ),
        decreases region_rings@.len() - region,
    {
        let rings: &Vec<Ring> = &region_rings[region];
        if !seg.is_transparent(region as u32) {
            let mut subpaths: Vec<SubPath<P, S>> = Vec::new();
            assert(paths_of(subpaths@) =~= Seq::<PathView<P, S>>::empty());
            let mut q: usize = 0;
            while q < rings.len()
                invariant
                    q <= rings@.len(),
                    region < region_rings@.len(),
                    rings == region_rings@[region as int],
                    rings_refer(region_rings@, fitted@.len() as int),
                    paths_of(subpaths@) == ring_paths(fitted@, rings@, q as int),
                decreases rings@.len() - q,
            {
                let ghost before = subpaths@;
                proof {
                    let refs = rings@[q as int].refs@;
                    assert forall|k: int| 0 <= k < refs.len() implies (#[trigger] refs[k]).arc
                        < fitted@.len() by {
                        assert(region_rings@[region as int]@[q as int].refs@[k].arc
                            < fitted@.len());
                    }
                }
                match build_subpath(&rings[q].refs, fitted) {
                    Some(path) => {
                        subpaths.push(path);
                        assert(paths_of(subpaths@) =~= paths_of(before).push(path@));
                    },
                    None => {},
                }
                q = q + 1;
            }
            if subpaths.len() > 0 {
                let color: Rgba8 = if recolor_regions {
                    let c: Rgba8 = seg.region_color[region];
                    Rgba8::new(c.r, c.g, c.b, 255)
                } else {
                    seg.region_fill(region as u32)
                };
                let ghost before = shapes@;
                let shape = Shape { color, subpaths };
                shapes.push(shape);
                assert(shapes_of(shapes@) =~= shapes_of(before).push(shape@));
            }
        }
        region = region + 1;
    }
    if merge_colors {
        shapes = group_by_color(shapes);
    }
    VectorImage { width, height, shapes, background }
}

// ---- Laws ---------------------------------------------------------------

/// Traced rings refer to traced arcs, so that one fitted arc for each is all
/// that the assembly needs.
pub proof fn law_traced_rings_can_be_assembled(
    g: RegionGrid,
    region_count: int,
    t: Topology<GridPoint>,
)
    requires
        is_topology_of(g, region_count, t),
        region_count <= u32::MAX,
    ensures
        t.region_rings@.len() == region_count,
        rings_refer(t.region_rings@, t.arcs@.len() as int),
{
    reveal(ring_ok);
    let rings = t.region_rings@;
    assert forall|x: int, q: int, k: int|
        0 <= x < rings.len() && 0 <= q < rings[x]@.len() && 0 <= k
            < rings[x]@[q].refs@.len() implies (#[trigger] rings[x]@[q].refs@[k]).arc
        < t.arcs@.len() by {
        let loops = loops_of(rings[x]@);
        assert(region_rings_ok(t.arcs@, x as u32, rings[x]@));
        assert(loops[q] == rings[x]@[q].refs@);
        assert(ring_ok(t.arcs@, x as u32, loops.take(q), loops[q]));
        assert(is_ref(t.arcs@, loops[q][k]));
    }
}

/// Whether a path is closed, has commands, and ends exactly where it starts.
pub open spec fn is_welded_path<P, S>(p: PathView<P, S>) -> bool {
    p.closed && p.segs.len() > 0 && path_end(p.start, p.segs) == p.start
}

/// Whether every subpath of every shape is welded.
pub open spec fn all_welded<P, S>(shapes: Seq<ShapeView<P, S>>) -> bool {
    forall|i: int, j: int|
        0 <= i < shapes.len() && 0 <= j < shapes[i].subpaths.len() ==> is_welded_path(
            #[trigger] shapes[i].subpaths[j],
        )
}

proof fn lemma_ring_paths_welded<P, S>(fitted: Seq<FittedArc<P, S>>, rings: Seq<Ring>, k: int)
    requires
        0 <= k <= rings.len(),
    ensures
        forall|j: int|
            0 <= j < ring_paths(fitted, rings, k).len() ==> is_welded_path(
                #[trigger] ring_paths(fitted, rings, k)[j],
            ),
    decreases k,
{
    if k > 0 {
        lemma_ring_paths_welded(fitted, rings, k - 1);
        law_subpaths_are_welded(fitted, rings[k - 1].refs@);
        let rest = ring_paths(fitted, rings, k - 1);
        let all = ring_paths(fitted, rings, k);
        assert forall|j: int| 0 <= j < all.len() implies is_welded_path(#[trigger] all[j]) by {
            if j < rest.len() {
                assert(all[j] == rest[j]);
            }
        }
    }
}

proof fn lemma_region_shapes_welded<L, P, S>(
    seg: Segmentation<L>,
    rings: Seq<Vec<Ring>>,
    fitted: Seq<FittedArc<P, S>>,
    recolor: bool,
    k: int,
)
    requires
        0 <= k <= rings.len(),
    ensures
        all_welded(region_shapes(seg, rings, fitted, recolor, k)),
    decreases k,
{
    if k > 0 {
        lemma_region_shapes_welded(seg, rings, fitted, recolor, k - 1);
        lemma_ring_paths_welded(fitted, rings[k - 1]@, rings[k - 1]@.len() as int);
        let rest = region_shapes(seg, rings, fitted, recolor, k - 1);
        let all = region_shapes(seg, rings, fitted, recolor, k);
        assert forall|i: int, j: int|
            0 <= i < all.len() && 0 <= j < all[i].subpaths.len() implies is_welded_path(
            #[trigger] all[i].subpaths[j],
        ) by {
            if i < rest.len() {
                assert(all[i] == rest[i]);
                assert(is_welded_path(rest[i].subpaths[j]));
            }
        }
    }
}

proof fn lemma_grouped_welded<P, S>(shapes: Seq<ShapeView<P, S>>)
    requires
        all_welded(shapes),
    ensures
        all_welded(grouped(shapes)),
    decreases shapes.len(),
{
    if shapes.len() > 0 {
        let before = shapes.drop_last();
        assert forall|i: int, j: int|
            0 <= i < before.len() && 0 <= j < before[i].subpaths.len() implies is_welded_path(
            #[trigger] before[i].subpaths[j],
        ) by {
            assert(is_welded_path(shapes[i].subpaths[j]));
        }
        lemma_grouped_welded(before);
        let groups = grouped(before);
        let s = shapes.last();
        let out = grouped(shapes);
        assert forall|j: int| 0 <= j < s.subpaths.len() implies is_welded_path(
            #[trigger] s.subpaths[j],
        ) by {
            assert(is_welded_path(shapes[shapes.len() - 1].subpaths[j]));
        }
        assert forall|i: int, j: int|
            0 <= i < out.len() && 0 <= j < out[i].subpaths.len() implies is_welded_path(
            #[trigger] out[i].subpaths[j],
        ) by {
            if i < groups.len() && j < groups[i].subpaths.len() {
                assert(is_welded_path(groups[i].subpaths[j]));
                assert(out[i].subpaths[j] == groups[i].subpaths[j]);
            } else if i < groups.len() {
                assert(out[i].subpaths[j] == s.subpaths[j - groups[i].subpaths.len()]);
            } else {
                assert(out[i] == s);
            }
        }
    }
}

/// In a document put together from any fitted arcs, grouped by colour or not,
/// every subpath is closed and ends exactly where it starts.
pub proof fn law_documents_are_welded<L, P, S>(
    seg: Segmentation<L>,
    rings: Seq<Vec<Ring>>,
    fitted: Seq<FittedArc<P, S>>,
    recolor: bool,
)
    ensures
        ({
            let shapes = region_shapes(seg, rings, fitted, recolor, rings.len() as int);
            all_welded(shapes) && all_welded(grouped(shapes))
        }),
{
    lemma_region_shapes_welded(seg, rings, fitted, recolor, rings.len() as int);
    lemma_grouped_welded(region_shapes(seg, rings, fitted, recolor, rings.len() as int));
}

/// Whether every fitted arc has commands and runs between the positions of its
/// arc's two nodes.
pub open spec fn fits_nodes<Q, P, S>(
    arcs: Seq<Arc<Q>>,
    nodes: Seq<P>,
    fitted: Seq<FittedArc<P, S>>,
) -> bool {
    &&& fitted.len() == arcs.len()
    &&& forall|a: int|
        0 <= a < fitted.len() ==> {
            &&& (#[trigger] fitted[a]).segs@.len() > 0
            &&& fitted[a].start == nodes[arcs[a].start_node as int]
            &&& path_end(fitted[a].start, fitted[a].segs@) == nodes[arcs[a].end_node as int]
        }
}

/// Fitted arcs keep to the nodes. Where the arcs run between their nodes, and
/// commands for a contour end at its last point, each fitted arc runs between the
/// nodes of its arc. Left out are arcs whose last point is dropped because the
/// one before it is no different.
pub proof fn law_fitting_keeps_to_the_nodes<
    P,
    S,
    FA: Fn(P, P) -> bool,
    FO: Fn(P, P) -> bool,
    FP: Fn(&Vec<P>, &Vec<usize>) -> Vec<usize>,
    FF: Fn(&Vec<P>, &Vec<usize>, bool) -> Vec<Seg<P, S>>,
>(
    apart: FA,
    on: FO,
    prune: FP,
    fit: FF,
    arcs: Seq<Arc<P>>,
    merge_pass: bool,
    nodes: Seq<P>,
    fitted: Seq<FittedArc<P, S>>,
)
    requires
        fitted.len() == arcs.len(),
        forall|a: int|
            0 <= a < arcs.len() ==> is_fit(
                apart,
                on,
                prune,
                fit,
                arcs[a],
                merge_pass,
                #[trigger] fitted[a],
            ),
        forall|a: int|
            0 <= a < arcs.len() ==> {
                let pts = (#[trigger] arcs[a]).points@;
                let left = deduped(apart, pts, pts.len() as int);
                &&& pts.len() > 0
                &&& pts[0] == nodes[arcs[a].start_node as int]
                &&& pts.last() == nodes[arcs[a].end_node as int]
                &&& left.len() >= 2
                &&& left.last() == pts.last()
            },
        forall|p: Vec<P>, c: Vec<usize>, closed: bool, segs: Vec<Seg<P, S>>|
            p@.len() >= 2 && #[trigger] fit.ensures((&p, &c, closed), segs) ==> segs@.len() > 0
                && path_end(p@[0], segs@) == p@.last(),
    ensures
        fits_nodes(arcs, nodes, fitted),
{
    assert forall|a: int| 0 <= a < fitted.len() implies {
        &&& (#[trigger] fitted[a]).segs@.len() > 0
        &&& fitted[a].start == nodes[arcs[a].start_node as int]
        &&& path_end(fitted[a].start, fitted[a].segs@) == nodes[arcs[a].end_node as int]
    } by {
        let arc = arcs[a];
        let f = fitted[a];
        lemma_first_is_left(apart, arc.points@, arc.points@.len() as int);
        let left = deduped(apart, arc.points@, arc.points@.len() as int);
        let (pts, mapped, corners) = choose|pts: Vec<P>, mapped: Vec<usize>, corners: Vec<usize>|
            pts@ == left && #[trigger] are_fit_corners(
                on,
                prune,
                arc,
                merge_pass,
                pts,
                mapped,
                corners,
            ) && fit.ensures((&pts, &corners, arc.loop_arc && left.len() > 2), f.segs);
        assert(fit.ensures((&pts, &corners, arc.loop_arc && left.len() > 2), f.segs));
    }
}

proof fn lemma_outline_end<P, S>(
    arcs: Seq<Arc<GridPoint>>,
    nodes: Seq<P>,
    fitted: Seq<FittedArc<P, S>>,
    refs: Seq<ArcRef>,
    k: int,
)
    requires
        fits_nodes(arcs, nodes, fitted),
        forall|i: int| 0 <= i < refs.len() ==> (#[trigger] refs[i]).arc < arcs.len(),
        0 < k <= refs.len(),
    ensures
        outline(fitted, refs, k).len() > 0,
        outline_start(fitted, refs, k) == Some(nodes[ref_start(arcs, refs[0]) as int]),
        seg_end(outline(fitted, refs, k).last()) == nodes[ref_end(arcs, refs[k - 1]) as int],
    decreases k,
{
    let r = refs[k - 1];
    let f = fitted[r.arc as int];
    law_reversal_swaps_ends(f.start, f.segs@);
    let piece = ref_segs(fitted, r);
    assert(piece.len() > 0);
    assert(seg_end(piece.last()) == nodes[ref_end(arcs, r) as int]);
    if k > 1 {
        lemma_outline_end(arcs, nodes, fitted, refs, k - 1);
    } else {
        assert(outline(fitted, refs, 0) =~= Seq::<Seg<P, S>>::empty());
        assert(outline_start(fitted, refs, 0) == None::<P>);
    }
    assert(outline(fitted, refs, k).last() == piece.last());
}

/// Where fitted arcs keep to the nodes, an outline has no gaps: each arc begins
/// exactly where the one before it ends, the last ends where the first begins,
/// and welding the ring shut moves nothing.
pub proof fn law_outlines_have_no_gaps<P, S>(
    arcs: Seq<Arc<GridPoint>>,
    nodes: Seq<P>,
    fitted: Seq<FittedArc<P, S>>,
    refs: Seq<ArcRef>,
)
    requires
        fits_nodes(arcs, nodes, fitted),
        is_closed_chain(arcs, refs),
        forall|i: int| 0 <= i < refs.len() ==> (#[trigger] refs[i]).arc < arcs.len(),
    ensures
        forall|k: int|
            0 <= k < refs.len() - 1 ==> path_end(
                ref_from(fitted, #[trigger] refs[k]),
                ref_segs(fitted, refs[k]),
            ) == ref_from(fitted, refs[k + 1]),
        path_end(ref_from(fitted, refs.last()), ref_segs(fitted, refs.last())) == ref_from(
            fitted,
            refs[0],
        ),
        ring_path(fitted, refs) == Some(
            PathView {
                start: ref_from(fitted, refs[0]),
                segs: outline(fitted, refs, refs.len() as int),
                closed: true,
            },
        ),
{
    assert forall|k: int| 0 <= k < refs.len() implies {
        &&& ref_from(fitted, #[trigger] refs[k]) == nodes[ref_start(arcs, refs[k]) as int]
        &&& path_end(ref_from(fitted, refs[k]), ref_segs(fitted, refs[k]))
            == nodes[ref_end(arcs, refs[k]) as int]
    } by {
        let f = fitted[refs[k].arc as int];
        law_reversal_swaps_ends(f.start, f.segs@);
    }
    assert forall|k: int| 0 <= k < refs.len() - 1 implies path_end(
        ref_from(fitted, #[trigger] refs[k]),
        ref_segs(fitted, refs[k]),
    ) == ref_from(fitted, refs[k + 1]) by {
        let l = k + 1;
        assert(ref_end(arcs, refs[k]) == ref_start(arcs, refs[l]));
    }
    let n = refs.len() as int;
    lemma_outline_end(arcs, nodes, fitted, refs, n);
    let segs = outline(fitted, refs, n);
    let start = ref_from(fitted, refs[0]);
    assert(seg_end(segs.last()) == start);
    assert(seg_ending(segs.last(), start) == segs.last());
    assert(segs.update(segs.len() - 1, segs.last()) =~= segs);
}

/// Mapping coordinates keeps paths welded: where every position of a closed path
/// is scaled or rounded alike, it still ends exactly where it starts.
pub proof fn law_mapping_keeps_welds<P, S, Q, T, F: Fn(P) -> Q, G: Fn(S) -> T>(
    f: F,
    g: G,
    a: PathView<P, S>,
    b: PathView<Q, T>,
)
    requires
        pure1(f),
        path_maps(f, g, a, b),
        is_welded_path(a),
    ensures
        is_welded_path(b),
{
    let last = a.segs.len() - 1;
    assert(seg_maps(f, g, a.segs[last], b.segs[last]));
    assert(f.ensures((seg_end(a.segs[last]),), seg_end(b.segs[last])));
}

/// Mapping coordinates keeps a shared border shared: drawn backwards and then
/// mapped, it is what it is mapped and then drawn backwards. Rounding therefore
/// opens no gap between two regions.
pub proof fn law_mapping_keeps_borders_alike<P, S, Q, T, F: Fn(P) -> Q, G: Fn(S) -> T>(
    f: F,
    g: G,
    a: PathView<P, S>,
    b: PathView<Q, T>,
    back: PathView<Q, T>,
)
    requires
        pure1(f),
        pure1(g),
        path_maps(f, g, a, b),
        path_maps(
            f,
            g,
            (PathView {
                start: path_end(a.start, a.segs),
                segs: segs_reversed(a.start, a.segs),
                closed: a.closed,
            }),
            back,
        ),
    ensures
        back.start == path_end(b.start, b.segs),
        back.segs == segs_reversed(b.start, b.segs),
{
    let n = a.segs.len() as int;
    let turned = segs_reversed(a.start, a.segs);
    let want = segs_reversed(b.start, b.segs);
    assert forall|i: int| 0 <= i <= n implies f.ensures(
        (#[trigger] seg_start(a.start, a.segs, i),),
        seg_start(b.start, b.segs, i),
    ) by {
        if i > 0 {
            assert(seg_maps(f, g, a.segs[i - 1], b.segs[i - 1]));
        }
    }
    assert(f.ensures((seg_start(a.start, a.segs, n),), seg_start(b.start, b.segs, n)));
    assert forall|k: int| 0 <= k < n implies #[trigger] back.segs[k] == want[k] by {
        let q = n - 1 - k;
        assert(seg_maps(f, g, a.segs[q], b.segs[q]));
        assert(seg_maps(f, g, turned[k], back.segs[k]));
        assert(turned[k] == seg_reversed(a.segs[q], seg_start(a.start, a.segs, q)));
        assert(want[k] == seg_reversed(b.segs[q], seg_start(b.start, b.segs, q)));
        assert(f.ensures((seg_start(a.start, a.segs, q),), seg_start(b.start, b.segs, q)));
    }
    assert(back.segs =~= want);
}

/// `color` is what region `x` is filled with: with `recolor` its own measured
/// colour, channel by channel and opaque, and else the colour of the palette entry
/// that its pixels are labelled with.
pub open spec fn is_fill<L>(seg: Segmentation<L>, x: int, recolor: bool, color: Rgba8) -> bool {
    if recolor {
        &&& color.r == seg.region_color@[x].r
        &&& color.g == seg.region_color@[x].g
        &&& color.b == seg.region_color@[x].b
        &&& color.a == 255
    } else {
        exists|e: int|
            0 <= e < seg.palette.entries@.len() && e == seg.region_label@[x] && color
                == (#[trigger] seg.palette.entries@[e]).color
    }
}

/// Shape `j` is region `x`: filled with its colour, and each of its subpaths is the
/// outline of one of its rings.
pub open spec fn shape_is_region<L, P, S>(
    seg: Segmentation<L>,
    rings: Seq<Vec<Ring>>,
    fitted: Seq<FittedArc<P, S>>,
    recolor: bool,
    shape: ShapeView<P, S>,
    x: int,
) -> bool {
    &&& 0 <= x < rings.len()
    &&& !seg.palette.entries@[seg.region_label@[x] as int].transparent
    &&& is_fill(seg, x, recolor, shape.color)
    &&& shape.subpaths.len() > 0
    &&& forall|k: int|
        0 <= k < shape.subpaths.len() ==> exists|q: int|
            0 <= q < rings[x]@.len() && #[trigger] ring_path(fitted, rings[x]@[q].refs@) == Some(
                #[trigger] shape.subpaths[k],
            )
    &&& forall|q: int|
        0 <= q < rings[x]@.len() && ring_path(fitted, (#[trigger] rings[x]@[q]).refs@) is Some
            ==> shape.subpaths.contains(ring_path(fitted, rings[x]@[q].refs@)->0)
}

proof fn lemma_ring_paths_from<P, S>(fitted: Seq<FittedArc<P, S>>, rings: Seq<Ring>, k: int)
    requires
        0 <= k <= rings.len(),
    ensures
        ({
            let paths = ring_paths(fitted, rings, k);
            &&& forall|j: int|
                0 <= j < paths.len() ==> exists|q: int|
                    0 <= q < k && #[trigger] ring_path(fitted, rings[q].refs@) == Some(
                        #[trigger] paths[j],
                    )
            &&& forall|q: int|
                0 <= q < k && ring_path(fitted, (#[trigger] rings[q]).refs@) is Some
                    ==> paths.contains(ring_path(fitted, rings[q].refs@)->0)
        }),
    decreases k,
{
    if k > 0 {
        lemma_ring_paths_from(fitted, rings, k - 1);
        let rest = ring_paths(fitted, rings, k - 1);
        let paths = ring_paths(fitted, rings, k);
        assert forall|j: int| 0 <= j < paths.len() implies exists|q: int|
            0 <= q < k && #[trigger] ring_path(fitted, rings[q].refs@) == Some(
                #[trigger] paths[j],
            ) by {
            if j < rest.len() {
                assert(paths[j] == rest[j]);
                let q = choose|q: int|
                    0 <= q < k - 1 && #[trigger] ring_path(fitted, rings[q].refs@) == Some(rest[j]);
                assert(ring_path(fitted, rings[q].refs@) == Some(paths[j]));
            } else {
                assert(ring_path(fitted, rings[k - 1].refs@) == Some(paths[j]));
            }
        }
        assert forall|q: int|
            0 <= q < k && ring_path(fitted, (#[trigger] rings[q]).refs@) is Some implies paths.contains(
            ring_path(fitted, rings[q].refs@)->0,
        ) by {
            let p = ring_path(fitted, rings[q].refs@)->0;
            if q < k - 1 {
                assert(rest.contains(p));
                let j = choose|j: int| 0 <= j < rest.len() && rest[j] == p;
                assert(paths[j] == p);
            } else {
                assert(paths[paths.len() - 1] == p);
            }
        }
    }
}

/// The shapes of a document, before they are grouped, are its painted regions: each
/// shape is one of them, in its colour and with its outlines, no region is drawn
/// twice or out of turn, and every painted region with an outline is drawn.
pub proof fn law_shapes_are_the_painted_regions<L, P, S>(
    seg: Segmentation<L>,
    rings: Seq<Vec<Ring>>,
    fitted: Seq<FittedArc<P, S>>,
    recolor: bool,
    k: int,
) -> (which: Seq<int>)
    requires
        seg.wf(),
        0 <= k <= rings.len(),
        rings.len() == seg.region_area@.len() < u32::MAX,
    ensures
        which.len() == region_shapes(seg, rings, fitted, recolor, k).len(),
        forall|j: int|
            0 <= j < which.len() ==> 0 <= #[trigger] which[j] < k && shape_is_region(
                seg,
                rings,
                fitted,
                recolor,
                region_shapes(seg, rings, fitted, recolor, k)[j],
                which[j],
            ),
        forall|i: int, j: int| 0 <= i < j < which.len() ==> which[i] < which[j],
        forall|x: int, q: int|
            0 <= x < k && 0 <= q < rings[x]@.len() && !(
            seg.palette.entries@[seg.region_label@[x] as int].transparent) && ring_path(
                fitted,
                (#[trigger] rings[x]@[q]).refs@,
            ) is Some ==> which.contains(x),
    decreases k,
{
    if k <= 0 {
        let none = Seq::<int>::empty();
        assert(none.len() == region_shapes(seg, rings, fitted, recolor, k).len());
        none
    } else {
        let before = law_shapes_are_the_painted_regions(seg, rings, fitted, recolor, k - 1);
        let x = k - 1;
        let rest = region_shapes(seg, rings, fitted, recolor, k - 1);
        let shapes = region_shapes(seg, rings, fitted, recolor, k);
        let paths = ring_paths(fitted, rings[x]@, rings[x]@.len() as int);
        lemma_ring_paths_from(fitted, rings[x]@, rings[x]@.len() as int);
        assert(seg.region_label@[x] < seg.palette.entries@.len());
        let drawn = !seg.unpainted(x as u32) && paths.len() > 0;
        let which = if drawn {
            before.push(x)
        } else {
            before
        };
        assert forall|j: int| 0 <= j < which.len() implies 0 <= #[trigger] which[j] < k
            && shape_is_region(seg, rings, fitted, recolor, shapes[j], which[j]) by {
            if j < rest.len() {
                assert(shapes[j] == rest[j]);
                assert(which[j] == before[j]);
            } else {
                assert(shapes[j].subpaths == paths);
                let e = seg.region_label@[x] as int;
                assert(seg.palette.entries@[e].color == seg.palette.entries@[e].color);
                assert(is_fill(seg, x, recolor, shapes[j].color));
            }
        }
        assert(which.len() == shapes.len());
        assert forall|i: int, j: int| 0 <= i < j < which.len() implies which[i] < which[j] by {
            assert(which[i] == before[i]);
            if j < before.len() {
                assert(which[j] == before[j]);
            } else {
                assert(0 <= before[i] < k - 1);
            }
        }
        assert forall|y: int, q: int|
            0 <= y < k && 0 <= q < rings[y]@.len() && !(
            seg.palette.entries@[seg.region_label@[y] as int].transparent) && ring_path(
                fitted,
                (#[trigger] rings[y]@[q]).refs@,
            ) is Some implies which.contains(y) by {
            if y < k - 1 {
                assert(before.contains(y));
                let j = choose|j: int| 0 <= j < before.len() && before[j] == y;
                assert(which[j] == y);
            } else {
                assert(paths.contains(ring_path(fitted, rings[x]@[q].refs@)->0));
                assert(which[which.len() - 1] == x);
            }
        }
        which
    }
}

/// Every subpath of a document, grouped or not, is painted in the colour of the
/// region whose outline it is, and in no other.
pub proof fn law_documents_paint_regions_in_their_color<L, P, S>(
    seg: Segmentation<L>,
    rings: Seq<Vec<Ring>>,
    fitted: Seq<FittedArc<P, S>>,
    recolor: bool,
    merge: bool,
    drawn: Seq<ShapeView<P, S>>,
    i: int,
    j: int,
)
    requires
        seg.wf(),
        rings.len() == seg.region_area@.len() < u32::MAX,
        drawn == (if merge {
            grouped(region_shapes(seg, rings, fitted, recolor, rings.len() as int))
        } else {
            region_shapes(seg, rings, fitted, recolor, rings.len() as int)
        }),
        0 <= i < drawn.len(),
        0 <= j < drawn[i].subpaths.len(),
    ensures
        exists|x: int, q: int|
            0 <= x < rings.len() && 0 <= q < rings[x]@.len() && is_fill(
                seg,
                x,
                recolor,
                drawn[i].color,
            ) && !seg.palette.entries@[seg.region_label@[x] as int].transparent
                && #[trigger] ring_path(fitted, rings[x]@[q].refs@) == Some(drawn[i].subpaths[j]),
{
    let shapes = region_shapes(seg, rings, fitted, recolor, rings.len() as int);
    let color = drawn[i].color;
    let path = drawn[i].subpaths[j];
    lemma_colored_contains(drawn, i, j);
    if merge {
        law_grouping_keeps_paths_in_their_color(shapes, color);
    }
    let (a, b) = lemma_colored_from(shapes, color, path);
    let which = law_shapes_are_the_painted_regions(seg, rings, fitted, recolor, rings.len() as int);
    let x = which[a];
    assert(shape_is_region(seg, rings, fitted, recolor, shapes[a], x));
    let q = choose|q: int|
        0 <= q < rings[x]@.len() && #[trigger] ring_path(fitted, rings[x]@[q].refs@) == Some(
            shapes[a].subpaths[b],
        );
    assert(ring_path(fitted, rings[x]@[q].refs@) == Some(path));
}

proof fn lemma_colored_contains<P, S>(shapes: Seq<ShapeView<P, S>>, i: int, j: int)
    requires
        0 <= i < shapes.len(),
        0 <= j < shapes[i].subpaths.len(),
    ensures
        paths_colored(shapes, shapes[i].color).contains(shapes[i].subpaths[j]),
    decreases shapes.len(),
{
    let color = shapes[i].color;
    let rest = paths_colored(shapes.drop_last(), color);
    let all = paths_colored(shapes, color);
    if i == shapes.len() - 1 {
        assert(all[rest.len() + j] == shapes[i].subpaths[j]);
    } else {
        lemma_colored_contains(shapes.drop_last(), i, j);
        let k = choose|k: int| 0 <= k < rest.len() && rest[k] == shapes[i].subpaths[j];
        assert(all[k] == rest[k]);
    }
}

proof fn lemma_colored_from<P, S>(
    shapes: Seq<ShapeView<P, S>>,
    color: Rgba8,
    path: PathView<P, S>,
) -> (at: (int, int))
    requires
        paths_colored(shapes, color).contains(path),
    ensures
        0 <= at.0 < shapes.len(),
        shapes[at.0].color == color,
        0 <= at.1 < shapes[at.0].subpaths.len(),
        shapes[at.0].subpaths[at.1] == path,
    decreases shapes.len(),
{
    let rest = paths_colored(shapes.drop_last(), color);
    let all = paths_colored(shapes, color);
    let k = choose|k: int| 0 <= k < all.len() && all[k] == path;
    if k < rest.len() {
        assert(rest[k] == path);
        lemma_colored_from(shapes.drop_last(), color, path)
    } else {
        (shapes.len() - 1, k - rest.len())
    }
}

// ---- How arcs are put together ------------------------------------------

/// An outline goes along its arcs one after the other: an arc that is gone along forwards
/// adds its commands as they are, one gone along backwards adds each of them, the last one
/// first, as the same curve back to where it began.
pub proof fn law_outlines_go_along_their_arcs<P, S>(
    fitted: Seq<FittedArc<P, S>>,
    refs: Seq<ArcRef>,
    k: int,
    j: int,
)
    requires
        0 <= k < refs.len(),
        0 <= j < fitted[refs[k].arc as int].segs@.len(),
    ensures
        outline(fitted, refs, 0).len() == 0,
        ({
            let before = outline(fitted, refs, k);
            let after = outline(fitted, refs, k + 1);
            let f = fitted[refs[k].arc as int];
            let n = f.segs@.len() as int;
            let from = if j == 0 {
                f.start
            } else {
                seg_end(f.segs@[j - 1])
            };
            &&& after.len() == before.len() + n
            &&& after.take(before.len() as int) == before
            &&& !refs[k].reversed ==> after[before.len() + j] == f.segs@[j]
            &&& refs[k].reversed ==> {
                let back = after[before.len() + n - 1 - j];
                match f.segs@[j] {
                    Seg::Line { to } => back == Seg::<P, S>::Line { to: from },
                    Seg::Cubic { c1, c2, to } => back == Seg::<P, S>::Cubic {
                        c1: c2,
                        c2: c1,
                        to: from,
                    },
                    Seg::Arc { r, large, sweep, to } => back == Seg::Arc {
                        r,
                        large,
                        sweep: !sweep,
                        to: from,
                    },
                }
            }
        }),
{
    let before = outline(fitted, refs, k);
    let after = outline(fitted, refs, k + 1);
    assert(after.take(before.len() as int) =~= before);
}

/// The subpath of a ring is closed, begins where its first arc that has commands is begun,
/// ends there, and has every command of its outline in order; only the last one's end may
/// have moved.
pub proof fn law_rings_become_closed_subpaths<P, S>(
    fitted: Seq<FittedArc<P, S>>,
    refs: Seq<ArcRef>,
    k: int,
)
    requires
        ring_path(fitted, refs) is Some,
        refs.len() > 0,
        fitted[refs[0].arc as int].segs@.len() > 0,
        0 <= k < outline(fitted, refs, refs.len() as int).len(),
    ensures
        ({
            let p = ring_path(fitted, refs)->0;
            let f = fitted[refs[0].arc as int];
            let all = outline(fitted, refs, refs.len() as int);
            &&& p.closed
            &&& !refs[0].reversed ==> p.start == f.start
            &&& refs[0].reversed ==> p.start == seg_end(f.segs@.last())
            &&& p.segs.len() == all.len()
            &&& seg_end(p.segs.last()) == p.start
            &&& k < all.len() - 1 ==> p.segs[k] == all[k]
            &&& k == all.len() - 1 ==> seg_ending(p.segs[k], seg_end(all[k])) == all[k]
        }),
{
    lemma_first_start(fitted, refs, refs.len() as int);
}

proof fn lemma_first_start<P, S>(fitted: Seq<FittedArc<P, S>>, refs: Seq<ArcRef>, k: int)
    requires
        1 <= k <= refs.len(),
        fitted[refs[0].arc as int].segs@.len() > 0,
    ensures
        outline_start(fitted, refs, k) == Some(ref_from(fitted, refs[0])),
    decreases k,
{
    if k > 1 {
        lemma_first_start(fitted, refs, k - 1);
    } else {
        assert(outline_start(fitted, refs, 0) == None::<P>);
    }
}

/// An arc is fitted through the points that are left of it once repeats are dropped, with its
/// own corners; only where that is asked for, and there are corners between its ends, are
/// those pruned first. It is fitted as closed where it is a loop of more than two points.
pub proof fn law_arcs_are_fitted_with_their_corners<
    P,
    S,
    FA: Fn(P, P) -> bool,
    FO: Fn(P, P) -> bool,
    FP: Fn(&Vec<P>, &Vec<usize>) -> Vec<usize>,
    FF: Fn(&Vec<P>, &Vec<usize>, bool) -> Vec<Seg<P, S>>,
>(apart: FA, on: FO, prune: FP, fit: FF, arc: Arc<P>, merge_pass: bool, f: FittedArc<P, S>) -> (found: (
    Vec<P>,
    Vec<usize>,
    Vec<usize>,
))
    requires
        is_fit(apart, on, prune, fit, arc, merge_pass, f),
        arc.points@.len() > 0,
        deduped(apart, arc.points@, arc.points@.len() as int).len() >= 2,
    ensures
        ({
            let (pts, mapped, corners) = found;
            &&& pts@ == deduped(apart, arc.points@, arc.points@.len() as int)
            &&& f.start == pts@[0]
            &&& are_remapped(on, arc.points@, pts@, arc.corners@, mapped@)
            &&& !merge_pass || mapped@.len() <= 2 ==> corners == mapped
            &&& merge_pass && mapped@.len() > 2 ==> prune.ensures((&pts, &mapped), corners)
            &&& arc.loop_arc && pts@.len() > 2 ==> fit.ensures((&pts, &corners, true), f.segs)
            &&& !arc.loop_arc || pts@.len() <= 2 ==> fit.ensures((&pts, &corners, false), f.segs)
        }),
{
    let left = deduped(apart, arc.points@, arc.points@.len() as int);
    choose|pts: Vec<P>, mapped: Vec<usize>, corners: Vec<usize>|
        pts@ == left && #[trigger] are_fit_corners(
            on,
            prune,
            arc,
            merge_pass,
            pts,
            mapped,
            corners,
        ) && fit.ensures((&pts, &corners, arc.loop_arc && left.len() > 2), f.segs)
}

} // verus!
