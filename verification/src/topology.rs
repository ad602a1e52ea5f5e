//! Planar topology extraction: the "no pancakes" pass.
//!
//! Most multi-colour tracers vectorise each colour independently and stack the
//! resulting silhouettes. The border that two neighbouring colours are supposed
//! to *share* then ends up as two different curves, and wherever they disagree
//! a sliver shows through, or one shape overlaps the other.
//!
//! This module instead builds a genuine planar subdivision. Every arc of the
//! crack graph has exactly one region on its left and one on its right, and each
//! of the two regions references that same arc -- one forwards, one reversed.
//! Shared borders are therefore identical by construction, not by numerical
//! luck, and junction points are shared vertices.

use crate::cracks::{
    arc_ok, arcs_ok, crack, edge_of, in_lattice, is_chain, is_dir, is_line_step, is_partition,
    junction, lemma_vertex_count_take, line_edge, lines_of, on_some_line, trace_arcs, vertex_count,
    Arc,
};
use crate::lattice::GridPoint;
use crate::pure::{call1, pure1, value1};
use crate::rings::{
    assemble_rings, is_closed_chain, is_ref, listed, loops_of, points_within, ref_region,
    region_rings_ok, ring_ok, ArcRef, Ring,
};
use crate::segment::{RegionGrid, Segmentation, OUTSIDE};
use vstd::prelude::*;

verus! {

/// The planar subdivision. `P` is the type of a position: lattice corners as
/// built, refined coordinates later.
pub struct Topology<P> {
    /// Shared junction positions. Both arcs meeting at a junction read their
    /// endpoint from here, so a junction can never split into two points.
    pub nodes: Vec<P>,
    pub arcs: Vec<Arc<P>>,
    /// Boundary rings per region, indexed by region id.
    pub region_rings: Vec<Vec<Ring>>,
}

/// The arcs agree but for the positions of their first and last point.
pub open spec fn same_but_ends<P>(a: Arc<P>, b: Arc<P>) -> bool {
    &&& a.start_node == b.start_node
    &&& a.end_node == b.end_node
    &&& a.left == b.left
    &&& a.right == b.right
    &&& a.loop_arc == b.loop_arc
    &&& a.on_border == b.on_border
    &&& a.corners@ == b.corners@
    &&& a.points@.len() == b.points@.len()
    &&& forall|k: int| 0 < k < a.points@.len() - 1 ==> #[trigger] b.points@[k] == a.points@[k]
}

impl<P> Topology<P> {
    /// Every arc has two ends, and both are nodes.
    pub open spec fn has_ends(&self) -> bool {
        forall|a: int|
            0 <= a < self.arcs@.len() ==> (#[trigger] self.arcs@[a]).points@.len() >= 2
                && self.arcs@[a].start_node < self.nodes@.len() && self.arcs@[a].end_node
                < self.nodes@.len()
    }

    /// Every arc begins and ends exactly at its nodes.
    pub open spec fn is_welded(&self) -> bool {
        forall|a: int|
            0 <= a < self.arcs@.len() ==> (#[trigger] self.arcs@[a]).points@[0]
                == self.nodes@[self.arcs@[a].start_node as int] && self.arcs@[a].points@.last()
                == self.nodes@[self.arcs@[a].end_node as int]
    }
}

impl<P: Copy> Topology<P> {
    /// The points of an arc in the direction of the reference.
    pub fn arc_points(&self, r: ArcRef) -> (points: Vec<P>)
        requires
            r.arc < self.arcs@.len(),
        ensures
            !r.reversed ==> points@ == self.arcs@[r.arc as int].points@,
            r.reversed ==> points@ == self.arcs@[r.arc as int].points@.reverse(),
    {
        let a = &self.arcs[r.arc as usize].points;
        let n: usize = a.len();
        let mut points: Vec<P> = Vec::new();
        let mut k: usize = 0;
        while k < n
            invariant
                k <= n,
                n == a@.len(),
                points@.len() == k,
                forall|i: int|
                    0 <= i < k ==> #[trigger] points@[i] == (if r.reversed {
                        a@[n - 1 - i]
                    } else {
                        a@[i]
                    }),
            decreases n - k,
        {
            if r.reversed {
                points.push(a[n - 1 - k]);
            } else {
                points.push(a[k]);
            }
            k = k + 1;
        }
        proof {
            if r.reversed {
                assert(points@ =~= a@.reverse());
            } else {
                assert(points@ =~= a@);
            }
        }
        points
    }

    /// Move the ends of every arc onto the shared positions of their nodes, so
    /// that arcs meeting at a junction cannot separate.
    pub fn weld(&mut self)
        requires
            old(self).has_ends(),
        ensures
            final(self).nodes@ == old(self).nodes@,
            final(self).region_rings == old(self).region_rings,
            final(self).arcs@.len() == old(self).arcs@.len(),
            final(self).is_welded(),
            forall|a: int|
                0 <= a < old(self).arcs@.len() ==> same_but_ends(
                    old(self).arcs@[a],
                    #[trigger] final(self).arcs@[a],
                ),
    {
        let mut a: usize = 0;
        while a < self.arcs.len()
            invariant
                a <= self.arcs@.len(),
                self.nodes@ == old(self).nodes@,
                self.region_rings == old(self).region_rings,
                self.arcs@.len() == old(self).arcs@.len(),
                old(self).has_ends(),
                forall|k: int|
                    0 <= k < a ==> same_but_ends(
                        old(self).arcs@[k],
                        #[trigger] self.arcs@[k],
                    ) && self.arcs@[k].points@[0] == self.nodes@[self.arcs@[k].start_node as int]
                        && self.arcs@[k].points@.last()
                        == self.nodes@[self.arcs@[k].end_node as int],
                forall|k: int|
                    a <= k < self.arcs@.len() ==> #[trigger] self.arcs@[k] == old(self).arcs@[k],
            decreases self.arcs@.len() - a,
        {
            let ghost before = self.arcs@;
            assert(before[a as int] == old(self).arcs@[a as int]);
            let n: usize = self.arcs[a].points.len();
            let first: P = self.nodes[self.arcs[a].start_node as usize];
            let last: P = self.nodes[self.arcs[a].end_node as usize];
            self.arcs[a].points.set(0, first);
            self.arcs[a].points.set(n - 1, last);
            a = a + 1;
        }
    }

    pub fn total_arc_vertices(&self) -> (n: usize)
        requires
            vertex_count(self.arcs@) <= usize::MAX,
        ensures
            n == vertex_count(self.arcs@),
    {
        let mut n: usize = 0;
        let mut k: usize = 0;
        while k < self.arcs.len()
            invariant
                k <= self.arcs@.len(),
                vertex_count(self.arcs@) <= usize::MAX,
                n == vertex_count(self.arcs@.take(k as int)),
            decreases self.arcs@.len() - k,
        {
            proof {
                lemma_vertex_count_take(self.arcs@, k + 1);
                assert(self.arcs@.take(k + 1).drop_last() =~= self.arcs@.take(k as int));
            }
            n = n + self.arcs[k].points.len();
            k = k + 1;
        }
        assert(self.arcs@.take(k as int) =~= self.arcs@);
        n
    }
}

/// The topology is that of region map `g` with `region_count` regions.
pub open spec fn is_topology_of(
    g: RegionGrid,
    region_count: int,
    t: Topology<GridPoint>,
) -> bool {
    &&& arcs_ok(g, t.nodes@, t.arcs@)
    &&& t.region_rings@.len() == region_count
    &&& forall|x: int|
        0 <= x < region_count ==> region_rings_ok(
            t.arcs@,
            x as u32,
            (#[trigger] t.region_rings@[x])@,
        )
}

/// Trace the borders between the regions of `seg`.
pub fn build<L>(seg: &Segmentation<L>) -> (t: Topology<GridPoint>)
    requires
        seg.traceable(),
    ensures
        is_topology_of(seg.grid(), seg.region_area@.len() as int, t),
        t.arcs@.len() <= 2 * ((seg.width + 1) * (seg.height + 1)),
        t.arcs@.len() <= u32::MAX,
        vertex_count(t.arcs@) <= usize::MAX,
        forall|a: int|
            0 <= a < t.arcs@.len() ==> (#[trigger] t.arcs@[a]).points@.len() <= 2 * ((seg.width + 1)
                * (seg.height + 1)) + 1,
{
    let (arcs, nodes) = trace_arcs(seg);
    proof {
        let g = seg.grid();
        assert forall|a: int| 0 <= a < arcs@.len() implies (#[trigger] arcs@[a]).points@.len()
            <= u32::MAX && points_within(arcs@[a].points@, g.w, g.h) by {
            assert(arc_ok(g, nodes@, arcs@[a]));
            assert(is_chain(g, arcs@[a].points@, arcs@[a].left, arcs@[a].right));
            let line = arcs@[a].points@;
            assert forall|k: int| 0 <= k < line.len() implies (#[trigger] line[k]).x <= g.w
                && line[k].y <= g.h by {
                assert(in_lattice(g, line[k].x as int, line[k].y as int));
            }
        }
    }
    let region_rings: Vec<Vec<Ring>> = assemble_rings(
        &arcs,
        &nodes,
        seg.region_count(),
        Ghost(seg.grid()),
    );
    Topology { nodes, arcs, region_rings }
}

// ---- Positions ----------------------------------------------------------

/// Every position taken through `f`.
pub open spec fn lifted_points<P, Q, F: Fn(P) -> Q>(f: F, pts: Seq<P>) -> Seq<Q> {
    Seq::new(pts.len(), |k: int| value1(f, pts[k]))
}

/// Arc `b` is arc `a` with every position taken through `f`.
pub open spec fn is_lifted_arc<P, Q, F: Fn(P) -> Q>(f: F, a: Arc<P>, b: Arc<Q>) -> bool {
    &&& b.points@ == lifted_points(f, a.points@)
    &&& b.start_node == a.start_node
    &&& b.end_node == a.end_node
    &&& b.left == a.left
    &&& b.right == a.right
    &&& b.loop_arc == a.loop_arc
    &&& b.on_border == a.on_border
    &&& b.corners == a.corners
}

/// `u` is `t` with every position taken through `f`.
pub open spec fn is_lifted<P, Q, F: Fn(P) -> Q>(f: F, t: Topology<P>, u: Topology<Q>) -> bool {
    &&& u.nodes@ == lifted_points(f, t.nodes@)
    &&& u.region_rings == t.region_rings
    &&& u.arcs@.len() == t.arcs@.len()
    &&& forall|a: int|
        0 <= a < t.arcs@.len() ==> is_lifted_arc(f, t.arcs@[a], #[trigger] u.arcs@[a])
}

fn lift_points<P: Copy, Q, F: Fn(P) -> Q>(f: &F, pts: &Vec<P>) -> (out: Vec<Q>)
    requires
        pure1(*f),
    ensures
        out@ == lifted_points(*f, pts@),
{
    let mut out: Vec<Q> = Vec::new();
    let mut k: usize = 0;
    while k < pts.len()
        invariant
            pure1(*f),
            k <= pts@.len(),
            out@.len() == k,
            forall|j: int| 0 <= j < k ==> #[trigger] out@[j] == value1(*f, pts@[j]),
        decreases pts@.len() - k,
    {
        out.push(call1(f, pts[k]));
        k = k + 1;
    }
    assert(out@ =~= lifted_points(*f, pts@));
    out
}

impl<P: Copy> Topology<P> {
    /// The same subdivision with every position taken through `f`. Nodes stay
    /// shared: an arc that ends on one still does.
    pub fn lift<Q, F: Fn(P) -> Q>(self, f: &F) -> (u: Topology<Q>)
        requires
            pure1(*f),
        ensures
            is_lifted(*f, self, u),
            self.has_ends() ==> u.has_ends(),
            self.has_ends() && self.is_welded() ==> u.is_welded(),
    {
        let ghost t = self;
        let nodes: Vec<Q> = lift_points(f, &self.nodes);
        let mut left: Vec<Arc<P>> = self.arcs;
        let mut back: Vec<Arc<Q>> = Vec::new();
        let ghost arcs0 = t.arcs@;
        while left.len() > 0
            invariant
                pure1(*f),
                arcs0 == t.arcs@,
                left@.len() + back@.len() == arcs0.len(),
                left@ == arcs0.take(left@.len() as int),
                forall|k: int|
                    0 <= k < back@.len() ==> is_lifted_arc(
                        *f,
                        arcs0[arcs0.len() - 1 - k],
                        #[trigger] back@[k],
                    ),
            decreases left@.len(),
        {
            let ghost n = left@.len();
            match left.pop() {
                None => {},
                Some(a) => {
                    assert(a == arcs0[n - 1]);
                    let points: Vec<Q> = lift_points(f, &a.points);
                    back.push(
                        Arc {
                            points,
                            start_node: a.start_node,
                            end_node: a.end_node,
                            left: a.left,
                            right: a.right,
                            loop_arc: a.loop_arc,
                            on_border: a.on_border,
                            corners: a.corners,
                        },
                    );
                    assert(left@ =~= arcs0.take(left@.len() as int));
                },
            }
        }
        let mut arcs: Vec<Arc<Q>> = Vec::new();
        let ghost whole = back@;
        while back.len() > 0
            invariant
                whole.len() == arcs0.len(),
                back@.len() + arcs@.len() == whole.len(),
                back@ == whole.take(back@.len() as int),
                forall|k: int|
                    0 <= k < whole.len() ==> is_lifted_arc(
                        *f,
                        arcs0[arcs0.len() - 1 - k],
                        #[trigger] whole[k],
                    ),
                forall|k: int|
                    0 <= k < arcs@.len() ==> is_lifted_arc(*f, arcs0[k], #[trigger] arcs@[k]),
            decreases back@.len(),
        {
            let ghost n = back@.len();
            match back.pop() {
                None => {},
                Some(a) => {
                    assert(a == whole[n - 1]);
                    arcs.push(a);
                    assert(back@ =~= whole.take(back@.len() as int));
                },
            }
        }
        let u = Topology { nodes, arcs, region_rings: self.region_rings };
        proof {
            if t.has_ends() {
                assert forall|a: int| 0 <= a < u.arcs@.len() implies (
                #[trigger] u.arcs@[a]).points@.len() >= 2 && u.arcs@[a].start_node
                    < u.nodes@.len() && u.arcs@[a].end_node < u.nodes@.len() by {
                    assert(is_lifted_arc(*f, arcs0[a], u.arcs@[a]));
                }
                if t.is_welded() {
                    assert forall|a: int| 0 <= a < u.arcs@.len() implies (
                    #[trigger] u.arcs@[a]).points@[0] == u.nodes@[u.arcs@[a].start_node as int]
                        && u.arcs@[a].points@.last()
                        == u.nodes@[u.arcs@[a].end_node as int] by {
                        assert(is_lifted_arc(*f, arcs0[a], u.arcs@[a]));
                        assert(t.arcs@[a].points@.len() >= 2);
                    }
                }
            }
        }
        u
    }
}

// ---- Laws ---------------------------------------------------------------

/// The reference at place `k` of ring `q` of region `x`.
pub open spec fn ring_ref(t: Topology<GridPoint>, x: int, q: int, k: int) -> ArcRef {
    t.region_rings@[x]@[q].refs@[k]
}

pub open spec fn is_ring_place(t: Topology<GridPoint>, x: int, q: int, k: int) -> bool {
    &&& 0 <= x < t.region_rings@.len()
    &&& 0 <= q < t.region_rings@[x]@.len()
    &&& 0 <= k < t.region_rings@[x]@[q].refs@.len()
}

/// The regions on the two sides of an arc differ.
pub proof fn law_arc_separates_two_regions(
    g: RegionGrid,
    region_count: int,
    t: Topology<GridPoint>,
    a: int,
)
    requires
        is_topology_of(g, region_count, t),
        0 <= a < t.arcs@.len(),
    ensures
        t.arcs@[a].left != t.arcs@[a].right,
{
    assert(arc_ok(g, t.nodes@, t.arcs@[a]));
}

/// As traced, every arc has its two ends, and is welded to their nodes.
pub proof fn law_traced_arcs_are_welded(g: RegionGrid, region_count: int, t: Topology<GridPoint>)
    requires
        is_topology_of(g, region_count, t),
    ensures
        t.has_ends(),
        t.is_welded(),
{
    assert forall|a: int| 0 <= a < t.arcs@.len() implies (#[trigger] t.arcs@[a]).points@.len() >= 2
        && t.arcs@[a].start_node < t.nodes@.len() && t.arcs@[a].end_node < t.nodes@.len()
        && t.arcs@[a].points@[0] == t.nodes@[t.arcs@[a].start_node as int]
        && t.arcs@[a].points@.last() == t.nodes@[t.arcs@[a].end_node as int] by {
        assert(arc_ok(g, t.nodes@, t.arcs@[a]));
    }
}

/// A shared border is one arc: it occurs in the rings of exactly the two regions
/// it separates, forwards in those of the region on its left and reversed in
/// those of the region on its right, once each.
#[verifier::rlimit(40)]
pub proof fn law_border_is_shared(
    g: RegionGrid,
    region_count: int,
    t: Topology<GridPoint>,
    r: ArcRef,
)
    requires
        is_topology_of(g, region_count, t),
        region_count < u32::MAX,
        r.arc < t.arcs@.len(),
        ref_region(t.arcs@, r) < region_count,
    ensures
        exists|q: int, k: int|
            is_ring_place(t, ref_region(t.arcs@, r) as int, q, k) && #[trigger] ring_ref(
                t,
                ref_region(t.arcs@, r) as int,
                q,
                k,
            ) == r,
        forall|x: int, q: int, k: int|
            is_ring_place(t, x, q, k) && #[trigger] ring_ref(t, x, q, k) == r ==> x == ref_region(
                t.arcs@,
                r,
            ),
        forall|q: int, k: int, q2: int, k2: int|
            is_ring_place(t, ref_region(t.arcs@, r) as int, q, k) && is_ring_place(
                t,
                ref_region(t.arcs@, r) as int,
                q2,
                k2,
            ) && #[trigger] ring_ref(t, ref_region(t.arcs@, r) as int, q, k) == r
                && #[trigger] ring_ref(t, ref_region(t.arcs@, r) as int, q2, k2) == r ==> q == q2
                && k == k2,
{
    reveal(ring_ok);
    let x0 = ref_region(t.arcs@, r) as int;
    let rings = t.region_rings@[x0]@;
    let loops = loops_of(rings);
    assert(region_rings_ok(t.arcs@, x0 as u32, t.region_rings@[x0]@));
    assert(is_ref(t.arcs@, r));
    assert(listed(loops, r));
    let q0 = choose|q: int| 0 <= q < loops.len() && (#[trigger] loops[q]).contains(r);
    let k0 = choose|k: int| 0 <= k < loops[q0].len() && loops[q0][k] == r;
    assert(ring_ref(t, x0, q0, k0) == r);
    assert forall|x: int, q: int, k: int|
        is_ring_place(t, x, q, k) && #[trigger] ring_ref(t, x, q, k) == r implies x == x0 by {
        let loops2 = loops_of(t.region_rings@[x]@);
        assert(region_rings_ok(t.arcs@, x as u32, t.region_rings@[x]@));
        assert(ring_ok(t.arcs@, x as u32, loops2.take(q), loops2[q]));
        assert(ref_region(t.arcs@, loops2[q][k]) == x);
    }
    assert forall|q: int, k: int, q2: int, k2: int|
        is_ring_place(t, x0, q, k) && is_ring_place(t, x0, q2, k2) && #[trigger] ring_ref(
            t,
            x0,
            q,
            k,
        ) == r && #[trigger] ring_ref(t, x0, q2, k2) == r implies q == q2 && k == k2 by {
        assert(ring_ok(t.arcs@, x0 as u32, loops.take(q), loops[q]));
        assert(ring_ok(t.arcs@, x0 as u32, loops.take(q2), loops[q2]));
        assert(loops[q][k] == r && loops[q2][k2] == r);
        assert(loops[q].contains(r) && loops[q2].contains(r));
        if q < q2 {
            assert(loops.take(q2)[q] == loops[q]);
            assert(listed(loops.take(q2), r));
        }
        if q2 < q {
            assert(loops.take(q)[q2] == loops[q2]);
            assert(listed(loops.take(q), r));
        }
    }
}

/// Every ring is a closed chain of arcs, with its region on the left throughout.
pub proof fn law_rings_are_closed(
    g: RegionGrid,
    region_count: int,
    t: Topology<GridPoint>,
    x: int,
    q: int,
)
    requires
        is_topology_of(g, region_count, t),
        0 <= x < region_count < u32::MAX,
        0 <= q < t.region_rings@[x]@.len(),
    ensures
        is_closed_chain(t.arcs@, t.region_rings@[x]@[q].refs@),
        forall|k: int|
            0 <= k < t.region_rings@[x]@[q].refs@.len() ==> ref_region(
                t.arcs@,
                #[trigger] t.region_rings@[x]@[q].refs@[k],
            ) == x,
{
    reveal(ring_ok);
    let loops = loops_of(t.region_rings@[x]@);
    assert(region_rings_ok(t.arcs@, x as u32, t.region_rings@[x]@));
    assert(ring_ok(t.arcs@, x as u32, loops.take(q), loops[q]));
}

/// A region map all of whose pixels belong to regions proper.
pub open spec fn fully_labelled(g: RegionGrid) -> bool {
    &&& g.w > 0
    &&& g.h > 0
    &&& forall|x: int, y: int| 0 <= x < g.w && 0 <= y < g.h ==> #[trigger] g.at(x, y) != OUTSIDE
}

/// The four corners of the image are junctions, and each is a node of the
/// topology, whatever the picture shows.
pub proof fn law_image_corners_are_nodes(
    g: RegionGrid,
    region_count: int,
    t: Topology<GridPoint>,
    corner: GridPoint,
)
    requires
        is_topology_of(g, region_count, t),
        fully_labelled(g),
        corner.x == 0 || corner.x == g.w,
        corner.y == 0 || corner.y == g.h,
    ensures
        junction(g, corner.x as int, corner.y as int),
        t.nodes@.contains(corner),
{
    let i = corner.x as int;
    let j = corner.y as int;
    let px = if i == 0 {
        0
    } else {
        i - 1
    };
    let py = if j == 0 {
        0
    } else {
        j - 1
    };
    assert(g.at(px, py) != OUTSIDE);
    assert(g.at(i, j) == OUTSIDE || (i == px && j == py)) by {
        reveal(RegionGrid::at);
    }
    assert(g.at(i - 1, j) == OUTSIDE || (i - 1 == px && j == py)) by {
        reveal(RegionGrid::at);
    }
    assert(g.at(i, j - 1) == OUTSIDE || (i == px && j - 1 == py)) by {
        reveal(RegionGrid::at);
    }
    assert(g.at(i - 1, j - 1) == OUTSIDE || (i - 1 == px && j - 1 == py)) by {
        reveal(RegionGrid::at);
    }
    assert(junction(g, i, j));
    let d = if crack(g, i, j, 0) {
        0int
    } else {
        2
    };
    assert(crack(g, i, j, d));
    let lines = lines_of(t.arcs@);
    let e = edge_of(i, j, d);
    assert(is_partition(g, lines));
    assert(is_dir(d) && in_lattice(g, i, j));
    assert(on_some_line(lines, e));
    let (a, k) = choose|a: int, k: int| is_line_step(lines, a, k) && #[trigger] line_edge(
        lines,
        a,
        k,
    ) == e;
    let arc = t.arcs@[a];
    assert(arc_ok(g, t.nodes@, arc));
    let line = arc.points@;
    assert(lines[a] == line);
    assert(crate::cracks::good_step(g, line, k, arc.left, arc.right));
    // One end of the step is the corner, and a corner is no interior point.
    let n = line.len() as int;
    assert(line[k] == corner || line[k + 1] == corner);
    if line[k] == corner {
        assert(k == 0);
    } else {
        assert(k + 1 == n - 1);
    }
    assert(t.nodes@[arc.start_node as int] == line[0]);
    assert(t.nodes@[arc.end_node as int] == line[n - 1]);
}

} // verus!
