//! The crack graph: the lattice of pixel corners, with an edge wherever two
//! adjacent pixels belong to different regions. It is cut at junctions (lattice
//! nodes where more or fewer than two cracks meet) into maximal chains called
//! arcs, each with one region on its left and one on its right.

use crate::lattice::{EdgeSet, GridPoint, NodeTable};
use crate::segment::{RegionGrid, Segmentation, OUTSIDE};
use vstd::prelude::*;

verus! {

// ---- The crack graph ---------------------------------------------------

/// The four pixels round lattice node `(i, j)`, clockwise from the north-east.
pub open spec fn pixel_at(g: RegionGrid, i: int, j: int, k: int) -> u32 {
    if k == 0 {
        g.at(i, j - 1)
    } else if k == 1 {
        g.at(i, j)
    } else if k == 2 {
        g.at(i - 1, j)
    } else {
        g.at(i - 1, j - 1)
    }
}

/// The next direction clockwise: east, south, west, north are 0, 1, 2, 3.
pub open spec fn cw(d: int) -> int {
    if d == 3 {
        0
    } else {
        d + 1
    }
}

/// The opposite direction.
pub open spec fn opp(d: int) -> int {
    if d < 2 {
        d + 2
    } else {
        d - 2
    }
}

pub open spec fn is_dir(d: int) -> bool {
    0 <= d < 4
}

/// Region on the left hand of a step from `(i, j)` in direction `d`.
pub open spec fn left_of(g: RegionGrid, i: int, j: int, d: int) -> u32 {
    pixel_at(g, i, j, d)
}

/// Region on the right hand of a step from `(i, j)` in direction `d`.
pub open spec fn right_of(g: RegionGrid, i: int, j: int, d: int) -> u32 {
    pixel_at(g, i, j, cw(d))
}

/// A crack leaves `(i, j)` in direction `d`: the regions on its two sides differ.
pub open spec fn crack(g: RegionGrid, i: int, j: int, d: int) -> bool {
    left_of(g, i, j, d) != right_of(g, i, j, d)
}

pub open spec fn step_x(i: int, d: int) -> int {
    if d == 0 {
        i + 1
    } else if d == 2 {
        i - 1
    } else {
        i
    }
}

pub open spec fn step_y(j: int, d: int) -> int {
    if d == 1 {
        j + 1
    } else if d == 3 {
        j - 1
    } else {
        j
    }
}

/// A crack as an undirected edge: its west or north end, and 0 where it runs
/// east of that, 1 where it runs south.
pub open spec fn edge_of(i: int, j: int, d: int) -> (int, int, int) {
    if d == 0 {
        (i, j, 0)
    } else if d == 1 {
        (i, j, 1)
    } else if d == 2 {
        (i - 1, j, 0)
    } else {
        (i, j - 1, 1)
    }
}

pub open spec fn in_lattice(g: RegionGrid, i: int, j: int) -> bool {
    0 <= i <= g.w && 0 <= j <= g.h
}

pub open spec fn one_if(b: bool) -> int {
    if b {
        1
    } else {
        0
    }
}

/// The number of cracks that meet at `(i, j)`.
pub open spec fn degree_of(g: RegionGrid, i: int, j: int) -> int {
    one_if(crack(g, i, j, 0)) + one_if(crack(g, i, j, 1)) + one_if(crack(g, i, j, 2)) + one_if(
        crack(g, i, j, 3),
    )
}

/// A node is a junction when more or fewer than two cracks meet there, so that
/// a degree-2 node is always an interior point of exactly one arc. The four
/// image corners are forced to be junctions as well: they are real corners of
/// the artwork and must never be smoothed away.
pub open spec fn junction(g: RegionGrid, i: int, j: int) -> bool {
    let d = degree_of(g, i, j);
    d != 0 && (d != 2 || ((i == 0 || i == g.w) && (j == 0 || j == g.h)))
}

/// A step seen from its far end has its sides swapped.
proof fn lemma_reverse_step(g: RegionGrid, i: int, j: int, d: int)
    requires
        is_dir(d),
    ensures
        left_of(g, step_x(i, d), step_y(j, d), opp(d)) == right_of(g, i, j, d),
        right_of(g, step_x(i, d), step_y(j, d), opp(d)) == left_of(g, i, j, d),
        edge_of(step_x(i, d), step_y(j, d), opp(d)) == edge_of(i, j, d),
        is_dir(opp(d)),
        opp(opp(d)) == d,
        step_x(step_x(i, d), opp(d)) == i,
        step_y(step_y(j, d), opp(d)) == j,
{
}

/// Two spokes are one edge only if they are the same spoke or its two ends.
proof fn lemma_same_edge(i: int, j: int, d: int, i2: int, j2: int, d2: int)
    requires
        is_dir(d),
        is_dir(d2),
        edge_of(i, j, d) == edge_of(i2, j2, d2),
    ensures
        (i2 == i && j2 == j && d2 == d) || (i2 == step_x(i, d) && j2 == step_y(j, d) && d2 == opp(
            d,
        )),
{
}

/// No crack leaves the lattice.
proof fn lemma_crack_inside(g: RegionGrid, i: int, j: int, d: int)
    requires
        is_dir(d),
        in_lattice(g, i, j),
        crack(g, i, j, d),
    ensures
        in_lattice(g, step_x(i, d), step_y(j, d)),
        ({
            let e = edge_of(i, j, d);
            in_lattice(g, e.0, e.1) && (e.2 == 0 || e.2 == 1)
        }),
{
    reveal(RegionGrid::at);
}

/// Where exactly two cracks meet, the sides carry over from one to the other.
proof fn lemma_sides_carry(g: RegionGrid, i: int, j: int, back: int, d: int)
    requires
        is_dir(back),
        is_dir(d),
        back != d,
        crack(g, i, j, back),
        crack(g, i, j, d),
        degree_of(g, i, j) == 2,
    ensures
        left_of(g, i, j, d) == right_of(g, i, j, back),
        right_of(g, i, j, d) == left_of(g, i, j, back),
        forall|e: int| is_dir(e) && #[trigger] crack(g, i, j, e) ==> e == back || e == d,
{
    assert(forall|e: int| is_dir(e) ==> e == 0 || e == 1 || e == 2 || e == 3);
}

// ---- Flow across a node -------------------------------------------------

/// What spoke `d` of `(i, j)` adds to the flow of region `x` out of the node:
/// one where the region lies on its left, minus one where on its right.
pub open spec fn spoke_flow(g: RegionGrid, x: u32, i: int, j: int, d: int) -> int {
    one_if(left_of(g, i, j, d) == x) - one_if(right_of(g, i, j, d) == x)
}

spec fn used_flow(g: RegionGrid, used: Set<(int, int, int)>, x: u32, i: int, j: int, d: int) -> int {
    if used.contains(edge_of(i, j, d)) {
        spoke_flow(g, x, i, j, d)
    } else {
        0
    }
}

/// Flow of region `x` out of `(i, j)` along the cracks in `used`.
spec fn node_flow(g: RegionGrid, used: Set<(int, int, int)>, x: u32, i: int, j: int) -> int {
    used_flow(g, used, x, i, j, 0) + used_flow(g, used, x, i, j, 1) + used_flow(g, used, x, i, j, 2)
        + used_flow(g, used, x, i, j, 3)
}

/// Adding one crack changes the flow at its two ends only, by opposite amounts.
proof fn lemma_flow_insert(
    g: RegionGrid,
    used: Set<(int, int, int)>,
    i: int,
    j: int,
    d: int,
    x: u32,
    vi: int,
    vj: int,
)
    requires
        is_dir(d),
        !used.contains(edge_of(i, j, d)),
    ensures
        node_flow(g, used.insert(edge_of(i, j, d)), x, vi, vj) == node_flow(g, used, x, vi, vj)
            + spoke_flow(g, x, i, j, d) * (one_if(vi == i && vj == j) - one_if(
            vi == step_x(i, d) && vj == step_y(j, d),
        )),
{
    lemma_reverse_step(g, i, j, d);
    let e = edge_of(i, j, d);
    let c = spoke_flow(g, x, i, j, d);
    let with = used.insert(e);
    assert forall|k: int| is_dir(k) implies #[trigger] used_flow(g, with, x, vi, vj, k) == used_flow(
        g,
        used,
        x,
        vi,
        vj,
        k,
    ) + (if vi == i && vj == j && k == d {
        c
    } else {
        0
    }) - (if vi == step_x(i, d) && vj == step_y(j, d) && k == opp(d) {
        c
    } else {
        0
    }) by {
        if edge_of(vi, vj, k) == e {
            lemma_same_edge(i, j, d, vi, vj, k);
        }
    }
    assert(used_flow(g, with, x, vi, vj, 0) == used_flow(g, with, x, vi, vj, 0));
    assert(used_flow(g, with, x, vi, vj, 1) == used_flow(g, with, x, vi, vj, 1));
    assert(used_flow(g, with, x, vi, vj, 2) == used_flow(g, with, x, vi, vj, 2));
    assert(used_flow(g, with, x, vi, vj, 3) == used_flow(g, with, x, vi, vj, 3));
    assert(c * 1 == c && c * 0 == 0 && c * (-1) == -c);
}

/// Once every crack at a node is in use, as much of a region's boundary leaves
/// the node as enters it.
proof fn lemma_flow_full(g: RegionGrid, used: Set<(int, int, int)>, x: u32, i: int, j: int)
    requires
        forall|d: int| is_dir(d) && #[trigger] crack(g, i, j, d) ==> used.contains(edge_of(i, j, d)),
    ensures
        node_flow(g, used, x, i, j) == 0,
{
    assert(crack(g, i, j, 0) ==> used.contains(edge_of(i, j, 0)));
    assert(crack(g, i, j, 1) ==> used.contains(edge_of(i, j, 1)));
    assert(crack(g, i, j, 2) ==> used.contains(edge_of(i, j, 2)));
    assert(crack(g, i, j, 3) ==> used.contains(edge_of(i, j, 3)));
}

// ---- Arcs ---------------------------------------------------------------

/// A maximal chain of crack edges between two junctions, separating exactly two
/// regions. `P` is the type of a position: lattice corners as traced, refined
/// coordinates later.
pub struct Arc<P> {
    /// Polyline with both endpoints. Endpoint positions are authoritative in
    /// `Topology::nodes`; the first and last point are kept in sync with them.
    pub points: Vec<P>,
    pub start_node: u32,
    pub end_node: u32,
    /// Region on the left when walking `points` forwards.
    pub left: u32,
    /// Region on the right when walking `points` forwards.
    pub right: u32,
    /// True when this arc is a closed loop whose start and end coincide.
    pub loop_arc: bool,
    /// True when the arc runs along the outside of the image. These must not be
    /// moved by sub-pixel refinement: there is no anti-aliasing data beyond the
    /// image edge, and a shape that filled the canvas should still fill it.
    pub on_border: bool,
    /// Indices into `points` that the corner detector marked as hard corners.
    pub corners: Vec<usize>,
}

impl<P> Arc<P> {
    pub fn len(&self) -> (n: usize)
        ensures
            n == self.points@.len(),
    {
        self.points.len()
    }

    pub fn is_empty(&self) -> (b: bool)
        ensures
            b == (self.points@.len() == 0),
    {
        self.points.len() == 0
    }
}

/// Direction of the lattice step from `p` to `q`.
pub open spec fn dir_between(p: GridPoint, q: GridPoint) -> int {
    if q.x > p.x {
        0
    } else if q.y > p.y {
        1
    } else if q.x < p.x {
        2
    } else {
        3
    }
}

/// `q` is the lattice neighbour of `p` in direction `d`.
pub open spec fn steps_to(p: GridPoint, d: int, q: GridPoint) -> bool {
    q.x == step_x(p.x as int, d) && q.y == step_y(p.y as int, d)
}

/// Step `k` of `line` runs along a lattice edge, with region `l` on its left
/// and `r` on its right.
pub open spec fn good_step(g: RegionGrid, line: Seq<GridPoint>, k: int, l: u32, r: u32) -> bool {
    let p = line[k];
    let d = dir_between(p, line[k + 1]);
    &&& steps_to(p, d, line[k + 1])
    &&& left_of(g, p.x as int, p.y as int, d) == l
    &&& right_of(g, p.x as int, p.y as int, d) == r
}

/// A chain of cracks with region `l` on its left and `r` on its right at every
/// step.
pub open spec fn is_chain(g: RegionGrid, line: Seq<GridPoint>, l: u32, r: u32) -> bool {
    &&& l != r
    &&& forall|k: int|
        0 <= k < line.len() ==> in_lattice(g, (#[trigger] line[k]).x as int, line[k].y as int)
    &&& forall|k: int| 0 <= k < line.len() - 1 ==> #[trigger] good_step(g, line, k, l, r)
}

/// The crack that step `k` of line `a` runs along.
pub open spec fn line_edge(lines: Seq<Seq<GridPoint>>, a: int, k: int) -> (int, int, int) {
    let p = lines[a][k];
    edge_of(p.x as int, p.y as int, dir_between(p, lines[a][k + 1]))
}

pub open spec fn lines_of(arcs: Seq<Arc<GridPoint>>) -> Seq<Seq<GridPoint>> {
    Seq::new(arcs.len(), |a: int| arcs[a].points@)
}

pub open spec fn is_line_step(lines: Seq<Seq<GridPoint>>, a: int, k: int) -> bool {
    0 <= a < lines.len() && 0 <= k < lines[a].len() - 1
}

/// `owner` maps each crack that the lines run along to the one place where they
/// do: the line and the step.
pub open spec fn owns(
    lines: Seq<Seq<GridPoint>>,
    owner: Map<(int, int, int), (int, int)>,
) -> bool {
    &&& forall|a: int, k: int|
        is_line_step(lines, a, k) ==> owner.dom().contains(#[trigger] line_edge(lines, a, k))
            && owner[line_edge(lines, a, k)] == (a, k)
    &&& forall|e: (int, int, int)|
        #[trigger] owner.dom().contains(e) ==> is_line_step(lines, owner[e].0, owner[e].1)
            && line_edge(lines, owner[e].0, owner[e].1) == e
}

/// Starting a line takes no crack.
proof fn lemma_owns_start(
    lines: Seq<Seq<GridPoint>>,
    owner: Map<(int, int, int), (int, int)>,
    p: GridPoint,
)
    requires
        owns(lines, owner),
    ensures
        owns(lines.push(seq![p]), owner),
{
    let more = lines.push(seq![p]);
    assert forall|a: int, k: int| is_line_step(more, a, k) implies owner.dom().contains(
        #[trigger] line_edge(more, a, k),
    ) && owner[line_edge(more, a, k)] == (a, k) by {
        assert(a < lines.len());
        assert(line_edge(lines, a, k) == line_edge(more, a, k));
        assert(is_line_step(lines, a, k));
    }
    assert forall|e: (int, int, int)| #[trigger] owner.dom().contains(e) implies is_line_step(
        more,
        owner[e].0,
        owner[e].1,
    ) && line_edge(more, owner[e].0, owner[e].1) == e by {
        assert(is_line_step(lines, owner[e].0, owner[e].1));
    }
}

/// Extending the last line by a step along a free crack takes that crack.
proof fn lemma_owns_extend(
    lines: Seq<Seq<GridPoint>>,
    line: Seq<GridPoint>,
    owner: Map<(int, int, int), (int, int)>,
    q: GridPoint,
    d: int,
)
    requires
        owns(lines.push(line), owner),
        line.len() > 0,
        is_dir(d),
        steps_to(line.last(), d, q),
        !owner.dom().contains(edge_of(line.last().x as int, line.last().y as int, d)),
    ensures
        owns(
            lines.push(line.push(q)),
            owner.insert(
                edge_of(line.last().x as int, line.last().y as int, d),
                (lines.len() as int, line.len() - 1),
            ),
        ),
        dir_between(line.last(), q) == d,
{
    let e0 = edge_of(line.last().x as int, line.last().y as int, d);
    let at = (lines.len() as int, line.len() - 1);
    let before = lines.push(line);
    let more = lines.push(line.push(q));
    let owner2 = owner.insert(e0, at);
    assert(line.push(q)[line.len() - 1] == line.last());
    assert(line_edge(more, at.0, at.1) == e0);
    assert forall|a: int, k: int| is_line_step(more, a, k) implies owner2.dom().contains(
        #[trigger] line_edge(more, a, k),
    ) && owner2[line_edge(more, a, k)] == (a, k) by {
        if (a, k) != at {
            assert(is_line_step(before, a, k));
            assert(line_edge(before, a, k) == line_edge(more, a, k));
        }
    }
    assert forall|e: (int, int, int)| #[trigger] owner2.dom().contains(e) implies is_line_step(
        more,
        owner2[e].0,
        owner2[e].1,
    ) && line_edge(more, owner2[e].0, owner2[e].1) == e by {
        if e != e0 {
            assert(owner.dom().contains(e));
            assert(is_line_step(before, owner[e].0, owner[e].1));
            assert(line_edge(before, owner[e].0, owner[e].1) == line_edge(
                more,
                owner[e].0,
                owner[e].1,
            ));
        }
    }
}

/// Every edge in `used` is a crack.
spec fn only_cracks(g: RegionGrid, used: Set<(int, int, int)>) -> bool {
    forall|i: int, j: int, d: int|
        in_lattice(g, i, j) && is_dir(d) && used.contains(#[trigger] edge_of(i, j, d)) ==> crack(
            g,
            i,
            j,
            d,
        )
}

/// Either all cracks at `(i, j)` are in use or none is.
spec fn even_handed(g: RegionGrid, used: Set<(int, int, int)>, i: int, j: int) -> bool {
    forall|d: int, e: int|
        is_dir(d) && is_dir(e) && #[trigger] crack(g, i, j, d) && #[trigger] crack(g, i, j, e)
            && used.contains(edge_of(i, j, d)) ==> used.contains(edge_of(i, j, e))
}

/// `even_handed` at every node that is neither a junction nor one of two exempt
/// ones.
spec fn even_but(
    g: RegionGrid,
    used: Set<(int, int, int)>,
    p: GridPoint,
    q: GridPoint,
) -> bool {
    forall|i: int, j: int|
        in_lattice(g, i, j) && !junction(g, i, j) && !(i == p.x && j == p.y) && !(i == q.x && j
            == q.y) ==> #[trigger] even_handed(g, used, i, j)
}

spec fn even_everywhere(g: RegionGrid, used: Set<(int, int, int)>) -> bool {
    forall|i: int, j: int|
        in_lattice(g, i, j) && !junction(g, i, j) ==> #[trigger] even_handed(g, used, i, j)
}

/// Every crack at a junction is in use.
spec fn junctions_done(g: RegionGrid, used: Set<(int, int, int)>) -> bool {
    forall|i: int, j: int, d: int|
        in_lattice(g, i, j) && junction(g, i, j) && is_dir(d) && #[trigger] crack(g, i, j, d)
            ==> used.contains(edge_of(i, j, d))
}

/// What an arc adds to the flow of region `x` out of `(i, j)`: only its two
/// ends count.
pub open spec fn arc_flow(a: Arc<GridPoint>, x: u32, i: int, j: int) -> int {
    (one_if(a.left == x) - one_if(a.right == x)) * (one_if(
        a.points@[0].x == i && a.points@[0].y == j,
    ) - one_if(a.points@.last().x == i && a.points@.last().y == j))
}

pub open spec fn arcs_flow(arcs: Seq<Arc<GridPoint>>, x: u32, i: int, j: int) -> int
    decreases arcs.len(),
{
    if arcs.len() == 0 {
        0
    } else {
        arcs_flow(arcs.drop_last(), x, i, j) + arc_flow(arcs.last(), x, i, j)
    }
}

/// An arc as traced: a chain of cracks that starts and ends at junctions and
/// passes none, or a closed loop; its nodes and flags say so.
pub open spec fn arc_ok(g: RegionGrid, nodes: Seq<GridPoint>, a: Arc<GridPoint>) -> bool {
    let line = a.points@;
    &&& line.len() >= 2
    &&& is_chain(g, line, a.left, a.right)
    &&& forall|k: int|
        0 < k < line.len() - 1 ==> !junction(g, (#[trigger] line[k]).x as int, line[k].y as int)
            && line[k] != line[0]
    &&& line[0] == line.last() || (junction(g, line[0].x as int, line[0].y as int) && junction(
        g,
        line.last().x as int,
        line.last().y as int,
    ))
    &&& a.start_node < nodes.len()
    &&& a.end_node < nodes.len()
    &&& nodes[a.start_node as int] == line[0]
    &&& nodes[a.end_node as int] == line.last()
    &&& a.loop_arc == (line[0] == line.last())
    &&& a.on_border == (a.left == OUTSIDE || a.right == OUTSIDE)
    &&& a.corners@.len() == 0
}

/// The number of polyline vertices of the arcs.
pub open spec fn vertex_count<P>(arcs: Seq<Arc<P>>) -> nat
    decreases arcs.len(),
{
    if arcs.len() == 0 {
        0
    } else {
        vertex_count(arcs.drop_last()) + arcs.last().points@.len()
    }
}

pub proof fn lemma_vertex_count_take<P>(arcs: Seq<Arc<P>>, k: int)
    requires
        0 <= k <= arcs.len(),
    ensures
        vertex_count(arcs.take(k)) <= vertex_count(arcs),
    decreases arcs.len(),
{
    if k < arcs.len() {
        assert(arcs.drop_last().take(k) =~= arcs.take(k));
        lemma_vertex_count_take(arcs.drop_last(), k);
    } else {
        assert(arcs.take(k) =~= arcs);
    }
}

/// The state between two arcs.
spec fn traced(
    g: RegionGrid,
    arcs: Seq<Arc<GridPoint>>,
    owner: Map<(int, int, int), (int, int)>,
    used: EdgeSet,
    nodes: NodeTable,
) -> bool {
    &&& used.wf()
    &&& nodes.wf()
    &&& used.columns() == g.w + 1
    &&& used.lines() == g.h + 1
    &&& nodes.columns() == g.w + 1
    &&& nodes.lines() == g.h + 1
    &&& used@ == owner.dom()
    &&& owns(lines_of(arcs), owner)
    &&& only_cracks(g, owner.dom())
    &&& even_everywhere(g, owner.dom())
    &&& forall|x: u32, i: int, j: int|
        #[trigger] node_flow(g, owner.dom(), x, i, j) == arcs_flow(arcs, x, i, j)
    &&& forall|a: int|
        0 <= a < arcs.len() ==> arc_ok(g, nodes@, #[trigger] arcs[a]) && arcs[a].points@.len() <= 2
            * ((g.w + 1) * (g.h + 1)) + 1
    &&& arcs.len() + used.free() <= 2 * ((g.w + 1) * (g.h + 1))
    &&& vertex_count(arcs) + 2 * used.free() <= 4 * ((g.w + 1) * (g.h + 1))
}

impl<L> Segmentation<L> {
    /// The lattice is small enough for arcs to be numbered in 32 bits, were every
    /// edge of it an arc, and for a list of those in both directions.
    pub open spec fn traceable(&self) -> bool {
        &&& self.wf()
        &&& 2 * ((self.width + 1) * (self.height + 1)) < u32::MAX
        &&& 4 * ((self.width + 1) * (self.height + 1)) <= usize::MAX
    }
}

/// Whether a crack leaves `p` in direction `d`.
fn crack_at<L>(seg: &Segmentation<L>, p: GridPoint, d: u32) -> (b: bool)
    requires
        seg.wf(),
        d < 4,
    ensures
        b == crack(seg.grid(), p.x as int, p.y as int, d as int),
{
    let (left, right) = sides(seg, p, d);
    left != right
}

/// Regions on either side of a step from `p` in direction `d`.
fn sides<L>(seg: &Segmentation<L>, p: GridPoint, d: u32) -> (s: (u32, u32))
    requires
        seg.wf(),
        d < 4,
    ensures
        s.0 == left_of(seg.grid(), p.x as int, p.y as int, d as int),
        s.1 == right_of(seg.grid(), p.x as int, p.y as int, d as int),
{
    let x: i64 = p.x as i64;
    let y: i64 = p.y as i64;
    if d == 0 {
        (seg.region_at_signed(x, y - 1), seg.region_at_signed(x, y))
    } else if d == 1 {
        (seg.region_at_signed(x, y), seg.region_at_signed(x - 1, y))
    } else if d == 2 {
        (seg.region_at_signed(x - 1, y), seg.region_at_signed(x - 1, y - 1))
    } else {
        (seg.region_at_signed(x - 1, y - 1), seg.region_at_signed(x, y - 1))
    }
}

/// The number of cracks that meet at `p`.
fn degree<L>(seg: &Segmentation<L>, p: GridPoint) -> (n: u32)
    requires
        seg.wf(),
    ensures
        n == degree_of(seg.grid(), p.x as int, p.y as int),
{
    let mut n: u32 = 0;
    if crack_at(seg, p, 0) {
        n = n + 1;
    }
    if crack_at(seg, p, 1) {
        n = n + 1;
    }
    if crack_at(seg, p, 2) {
        n = n + 1;
    }
    if crack_at(seg, p, 3) {
        n = n + 1;
    }
    n
}

/// See [`junction`].
fn is_junction<L>(seg: &Segmentation<L>, p: GridPoint) -> (b: bool)
    requires
        seg.wf(),
    ensures
        b == junction(seg.grid(), p.x as int, p.y as int),
{
    let d: u32 = degree(seg, p);
    if d == 0 {
        return false;
    }
    if d != 2 {
        return true;
    }
    (p.x == 0 || p.x == seg.width) && (p.y == 0 || p.y == seg.height)
}

/// The far end of the crack that leaves `p` in direction `d`.
fn other_end<L>(seg: &Segmentation<L>, p: GridPoint, d: u32) -> (q: GridPoint)
    requires
        seg.traceable(),
        d < 4,
        in_lattice(seg.grid(), p.x as int, p.y as int),
        crack(seg.grid(), p.x as int, p.y as int, d as int),
    ensures
        steps_to(p, d as int, q),
        in_lattice(seg.grid(), q.x as int, q.y as int),
        q != p,
{
    proof {
        lemma_crack_inside(seg.grid(), p.x as int, p.y as int, d as int);
        lemma_lattice_small(seg.width as int, seg.height as int);
    }
    if d == 0 {
        GridPoint { x: p.x + 1, y: p.y }
    } else if d == 1 {
        GridPoint { x: p.x, y: p.y + 1 }
    } else if d == 2 {
        GridPoint { x: p.x - 1, y: p.y }
    } else {
        GridPoint { x: p.x, y: p.y - 1 }
    }
}

proof fn lemma_lattice_small(w: int, h: int)
    requires
        0 <= w,
        0 <= h,
        2 * ((w + 1) * (h + 1)) < u32::MAX,
    ensures
        w + 1 < u32::MAX,
        h + 1 < u32::MAX,
{
    assert(w + 1 <= (w + 1) * (h + 1)) by (nonlinear_arith)
        requires
            0 <= w,
            0 <= h,
    ;
    assert(h + 1 <= (w + 1) * (h + 1)) by (nonlinear_arith)
        requires
            0 <= w,
            0 <= h,
    ;
}

/// At a node of degree 2, the crack other than the one in direction `back`.
fn onward<L>(seg: &Segmentation<L>, p: GridPoint, back: u32) -> (d: u32)
    requires
        seg.wf(),
        back < 4,
        crack(seg.grid(), p.x as int, p.y as int, back as int),
        degree_of(seg.grid(), p.x as int, p.y as int) == 2,
    ensures
        d < 4,
        d != back,
        crack(seg.grid(), p.x as int, p.y as int, d as int),
{
    if back != 2 && crack_at(seg, p, 2) {
        return 2;
    }
    if back != 0 && crack_at(seg, p, 0) {
        return 0;
    }
    if back != 3 && crack_at(seg, p, 3) {
        return 3;
    }
    1
}

/// Whether the crack that leaves `p` in direction `d` has been taken.
fn is_taken(used: &EdgeSet, p: GridPoint, d: u32, Ghost(g): Ghost<RegionGrid>) -> (b: bool)
    requires
        used.wf(),
        used.columns() == g.w + 1,
        used.lines() == g.h + 1,
        d < 4,
        in_lattice(g, p.x as int, p.y as int),
        crack(g, p.x as int, p.y as int, d as int),
    ensures
        b == used@.contains(edge_of(p.x as int, p.y as int, d as int)),
{
    proof {
        lemma_crack_inside(g, p.x as int, p.y as int, d as int);
    }
    if d == 0 {
        used.contains(p.x, p.y, 0)
    } else if d == 1 {
        used.contains(p.x, p.y, 1)
    } else if d == 2 {
        used.contains(p.x - 1, p.y, 0)
    } else {
        used.contains(p.x, p.y - 1, 1)
    }
}

/// Take the crack that leaves `p` in direction `d`.
fn take(used: &mut EdgeSet, p: GridPoint, d: u32, Ghost(g): Ghost<RegionGrid>)
    requires
        old(used).wf(),
        old(used).columns() == g.w + 1,
        old(used).lines() == g.h + 1,
        d < 4,
        in_lattice(g, p.x as int, p.y as int),
        crack(g, p.x as int, p.y as int, d as int),
        !old(used)@.contains(edge_of(p.x as int, p.y as int, d as int)),
    ensures
        final(used).wf(),
        final(used).columns() == old(used).columns(),
        final(used).lines() == old(used).lines(),
        final(used)@ == old(used)@.insert(edge_of(p.x as int, p.y as int, d as int)),
        final(used).free() == old(used).free() - 1,
{
    proof {
        lemma_crack_inside(g, p.x as int, p.y as int, d as int);
    }
    if d == 0 {
        used.insert(p.x, p.y, 0);
    } else if d == 1 {
        used.insert(p.x, p.y, 1);
    } else if d == 2 {
        used.insert(p.x - 1, p.y, 0);
    } else {
        used.insert(p.x, p.y - 1, 1);
    }
}

/// At `p`, the crack in direction `d` is free and every other crack is taken.
spec fn last_free(g: RegionGrid, used: Set<(int, int, int)>, p: GridPoint, d: int) -> bool {
    forall|e: int|
        is_dir(e) && #[trigger] crack(g, p.x as int, p.y as int, e) ==> (used.contains(
            edge_of(p.x as int, p.y as int, e),
        ) <==> e != d)
}

/// At `p`, the crack in direction `d` is taken and every other crack is free.
spec fn only_taken(g: RegionGrid, used: Set<(int, int, int)>, p: GridPoint, d: int) -> bool {
    forall|e: int|
        is_dir(e) && #[trigger] crack(g, p.x as int, p.y as int, e) ==> (used.contains(
            edge_of(p.x as int, p.y as int, e),
        ) <==> e == d)
}

/// Taking the crack from `cur` to `nxt` leaves every node but the start and
/// `nxt` even-handed.
proof fn lemma_even_step(
    g: RegionGrid,
    used: Set<(int, int, int)>,
    start: GridPoint,
    cur: GridPoint,
    d: int,
    nxt: GridPoint,
)
    requires
        is_dir(d),
        steps_to(cur, d, nxt),
        even_but(g, used, start, cur),
        cur != start ==> last_free(g, used, cur, d),
    ensures
        even_but(g, used.insert(edge_of(cur.x as int, cur.y as int, d)), start, nxt),
{
    let e0 = edge_of(cur.x as int, cur.y as int, d);
    let more = used.insert(e0);
    assert forall|i: int, j: int|
        in_lattice(g, i, j) && !junction(g, i, j) && !(i == start.x && j == start.y) && !(i == nxt.x
            && j == nxt.y) implies #[trigger] even_handed(g, more, i, j) by {
        if i == cur.x && j == cur.y {
            assert(last_free(g, used, cur, d));
        } else {
            assert(even_handed(g, used, i, j));
            assert forall|k: int| is_dir(k) implies edge_of(i, j, k) != e0 by {
                if edge_of(i, j, k) == e0 {
                    lemma_same_edge(cur.x as int, cur.y as int, d, i, j, k);
                }
            }
        }
    }
}

/// Arriving at `nxt`, an even-handed node of degree 2, over a crack that was
/// free leaves exactly one crack free there.
proof fn lemma_arrive(
    g: RegionGrid,
    used: Set<(int, int, int)>,
    cur: GridPoint,
    d: int,
    nxt: GridPoint,
    onward: int,
)
    requires
        is_dir(d),
        is_dir(onward),
        onward != opp(d),
        steps_to(cur, d, nxt),
        even_handed(g, used, nxt.x as int, nxt.y as int),
        !used.contains(edge_of(cur.x as int, cur.y as int, d)),
        crack(g, cur.x as int, cur.y as int, d),
        crack(g, nxt.x as int, nxt.y as int, onward),
        degree_of(g, nxt.x as int, nxt.y as int) == 2,
    ensures
        last_free(g, used.insert(edge_of(cur.x as int, cur.y as int, d)), nxt, onward),
        left_of(g, nxt.x as int, nxt.y as int, onward) == left_of(g, cur.x as int, cur.y as int, d),
        right_of(g, nxt.x as int, nxt.y as int, onward) == right_of(
            g,
            cur.x as int,
            cur.y as int,
            d,
        ),
{
    let i = nxt.x as int;
    let j = nxt.y as int;
    lemma_reverse_step(g, cur.x as int, cur.y as int, d);
    assert(crack(g, i, j, opp(d)));
    lemma_sides_carry(g, i, j, opp(d), onward);
    if edge_of(i, j, onward) == edge_of(cur.x as int, cur.y as int, d) {
        lemma_same_edge(cur.x as int, cur.y as int, d, i, j, onward);
    }
    assert(!used.contains(edge_of(i, j, opp(d))));
    assert(!used.contains(edge_of(i, j, onward)));
}

/// Arriving back at the start of a loop takes the last free crack there.
proof fn lemma_return(
    g: RegionGrid,
    used: Set<(int, int, int)>,
    start: GridPoint,
    first: int,
    cur: GridPoint,
    d: int,
)
    requires
        is_dir(d),
        is_dir(first),
        steps_to(cur, d, start),
        cur != start,
        only_taken(g, used, start, first),
        !used.contains(edge_of(cur.x as int, cur.y as int, d)),
        crack(g, cur.x as int, cur.y as int, d),
        crack(g, start.x as int, start.y as int, first),
        !junction(g, start.x as int, start.y as int),
    ensures
        even_handed(
            g,
            used.insert(edge_of(cur.x as int, cur.y as int, d)),
            start.x as int,
            start.y as int,
        ),
{
    let i = start.x as int;
    let j = start.y as int;
    lemma_reverse_step(g, cur.x as int, cur.y as int, d);
    assert(crack(g, i, j, opp(d)));
    assert(used.contains(edge_of(i, j, first)));
    assert(first != opp(d));
    assert(degree_of(g, i, j) == 2);
    lemma_sides_carry(g, i, j, opp(d), first);
}

/// Follow a chain of degree-2 nodes from `start` in direction `first` until
/// another junction (or the starting node) is reached.
#[verifier::rlimit(40)]
fn walk_arc<L>(
    seg: &Segmentation<L>,
    used: &mut EdgeSet,
    nodes: &mut NodeTable,
    start: GridPoint,
    first: u32,
    start_node: u32,
    Ghost(arcs): Ghost<Seq<Arc<GridPoint>>>,
    Ghost(owner): Ghost<Map<(int, int, int), (int, int)>>,
) -> (out: (Arc<GridPoint>, Ghost<Map<(int, int, int), (int, int)>>))
    requires
        seg.traceable(),
        traced(seg.grid(), arcs, owner, *old(used), *old(nodes)),
        first < 4,
        in_lattice(seg.grid(), start.x as int, start.y as int),
        crack(seg.grid(), start.x as int, start.y as int, first as int),
        !owner.dom().contains(edge_of(start.x as int, start.y as int, first as int)),
        start_node < old(nodes)@.len(),
        old(nodes)@[start_node as int] == start,
        junction(seg.grid(), start.x as int, start.y as int) || junctions_done(
            seg.grid(),
            owner.dom(),
        ),
    ensures
        traced(seg.grid(), arcs.push(out.0), out.1@, *final(used), *final(nodes)),
        owner.submap_of(out.1@),
        out.1@.dom().contains(edge_of(start.x as int, start.y as int, first as int)),
        out.0.points@[0] == start,
        dir_between(start, out.0.points@[1]) == first,
        old(nodes)@.is_prefix_of(final(nodes)@),
        !junction(seg.grid(), start.x as int, start.y as int) ==> out.0.points@.last() == start,
{
    let ghost g = seg.grid();
    let ghost lines = lines_of(arcs);
    let mut points: Vec<GridPoint> = Vec::new();
    points.push(start);
    let (left, right) = sides(seg, start, first);
    let mut cur: GridPoint = start;
    let mut dir: u32 = first;
    let mut done: bool = false;
    let ghost mut own = owner;
    proof {
        assert(points@ =~= seq![start]);
        lemma_owns_start(lines, owner, start);
        assert(owner.dom() =~= own.dom());
        if !junction(g, start.x as int, start.y as int) {
            assert(even_handed(g, own.dom(), start.x as int, start.y as int));
        }
        assert forall|x: u32, i: int, j: int|
            #[trigger] node_flow(g, own.dom(), x, i, j) == arcs_flow(arcs, x, i, j) + (one_if(
                left == x,
            ) - one_if(right == x)) * (one_if(start.x == i && start.y == j) - one_if(
                cur.x == i && cur.y == j,
            )) by {
            let s = one_if(start.x == i && start.y == j);
            lemma_telescope(one_if(left == x) - one_if(right == x), s, s, s);
        }
    }
    while !done
        invariant
            g == seg.grid(),
            lines == lines_of(arcs),
            seg.traceable(),
            used.wf(),
            used.columns() == g.w + 1,
            used.lines() == g.h + 1,
            used@ == own.dom(),
            owns(lines.push(points@), own),
            owner.submap_of(own),
            only_cracks(g, own.dom()),
            first < 4,
            points@.len() >= 1,
            points@[0] == start,
            points@.last() == cur,
            is_chain(g, points@, left, right),
            in_lattice(g, cur.x as int, cur.y as int),
            crack(g, start.x as int, start.y as int, first as int),
            junction(g, start.x as int, start.y as int) || junctions_done(g, own.dom()),
            forall|x: u32, i: int, j: int|
                #[trigger] node_flow(g, own.dom(), x, i, j) == arcs_flow(arcs, x, i, j) + (one_if(
                    left == x,
                ) - one_if(right == x)) * (one_if(start.x == i && start.y == j) - one_if(
                    cur.x == i && cur.y == j,
                )),
            forall|k: int|
                0 < k < points@.len() - 1 ==> !junction(
                    g,
                    (#[trigger] points@[k]).x as int,
                    points@[k].y as int,
                ) && points@[k] != start,
            points@.len() >= 2 ==> dir_between(start, points@[1]) == first && own.dom().contains(
                edge_of(start.x as int, start.y as int, first as int),
            ),
            arcs.len() + used.free() + (if points@.len() >= 2 {
                1int
            } else {
                0
            }) <= 2 * ((g.w + 1) * (g.h + 1)),
            points@.len() - 1 + used.free() <= 2 * ((g.w + 1) * (g.h + 1)),
            vertex_count(arcs) + 2 * (points@.len() - 1) + 2 * used.free() <= 4 * ((g.w + 1) * (g.h
                + 1)),
            !done ==> {
                &&& dir < 4
                &&& crack(g, cur.x as int, cur.y as int, dir as int)
                &&& !own.dom().contains(edge_of(cur.x as int, cur.y as int, dir as int))
                &&& left_of(g, cur.x as int, cur.y as int, dir as int) == left
                &&& right_of(g, cur.x as int, cur.y as int, dir as int) == right
                &&& even_but(g, own.dom(), start, cur)
                &&& points@.len() == 1 ==> cur == start && dir == first && even_everywhere(
                    g,
                    own.dom(),
                )
                &&& points@.len() >= 2 ==> {
                    &&& cur != start
                    &&& !junction(g, cur.x as int, cur.y as int)
                    &&& last_free(g, own.dom(), cur, dir as int)
                    &&& !junction(g, start.x as int, start.y as int) ==> only_taken(
                        g,
                        own.dom(),
                        start,
                        first as int,
                    )
                }
            },
            done ==> {
                &&& points@.len() >= 2
                &&& even_everywhere(g, own.dom())
                &&& cur == start || (junction(g, cur.x as int, cur.y as int) && junction(
                    g,
                    start.x as int,
                    start.y as int,
                ))
            },
        decreases used.free(),
    {
        let ghost own0 = own;
        let ghost line0 = points@;
        let ghost e0 = edge_of(cur.x as int, cur.y as int, dir as int);
        let nxt: GridPoint = other_end(seg, cur, dir);
        take(used, cur, dir, Ghost(g));
        points.push(nxt);
        proof {
            lemma_owns_extend(lines, line0, own0, nxt, dir as int);
            own = own0.insert(e0, (lines.len() as int, line0.len() - 1));
            assert(own.dom() =~= own0.dom().insert(e0));
            lemma_reverse_step(g, cur.x as int, cur.y as int, dir as int);
            // The new crack lies at `cur` and `nxt` only.
            assert forall|i: int, j: int, d: int|
                in_lattice(g, i, j) && is_dir(d) && own.dom().contains(#[trigger] edge_of(i, j, d))
                implies crack(g, i, j, d) by {
                if edge_of(i, j, d) == e0 {
                    lemma_same_edge(cur.x as int, cur.y as int, dir as int, i, j, d);
                }
            }
            assert forall|k: int| 0 <= k < points@.len() - 1 implies #[trigger] good_step(
                g,
                points@,
                k,
                left,
                right,
            ) by {
                if k < line0.len() - 1 {
                    assert(good_step(g, line0, k, left, right));
                } else {
                    assert(points@[k] == cur);
                    assert(points@[k + 1] == nxt);
                }
            }
            assert forall|k: int| 0 < k < points@.len() - 1 implies !junction(
                g,
                (#[trigger] points@[k]).x as int,
                points@[k].y as int,
            ) && points@[k] != start by {
                if k == line0.len() - 1 {
                    assert(points@[k] == cur);
                } else {
                    assert(points@[k] == line0[k]);
                }
            }
            assert forall|x: u32, i: int, j: int|
                #[trigger] node_flow(g, own.dom(), x, i, j) == arcs_flow(arcs, x, i, j) + (one_if(
                    left == x,
                ) - one_if(right == x)) * (one_if(start.x == i && start.y == j) - one_if(
                    nxt.x == i && nxt.y == j,
                )) by {
                lemma_flow_insert(g, own0.dom(), cur.x as int, cur.y as int, dir as int, x, i, j);
                assert(node_flow(g, own0.dom(), x, i, j) == arcs_flow(arcs, x, i, j) + (one_if(
                    left == x,
                ) - one_if(right == x)) * (one_if(start.x == i && start.y == j) - one_if(
                    cur.x == i && cur.y == j,
                )));
                lemma_telescope(
                    one_if(left == x) - one_if(right == x),
                    one_if(start.x == i && start.y == j),
                    one_if(cur.x == i && cur.y == j),
                    one_if(nxt.x == i && nxt.y == j),
                );
            }
            lemma_even_step(g, own0.dom(), start, cur, dir as int, nxt);
            if line0.len() == 1 {
                assert(points@[1] == nxt);
                assert(dir_between(start, nxt) == first);
                if !junction(g, start.x as int, start.y as int) {
                    assert(even_handed(g, own0.dom(), start.x as int, start.y as int));
                    assert forall|e: int| is_dir(e) && #[trigger] crack(
                        g,
                        start.x as int,
                        start.y as int,
                        e,
                    ) implies (own.dom().contains(edge_of(start.x as int, start.y as int, e)) <==> e
                        == first) by {
                        if edge_of(start.x as int, start.y as int, e) == e0 {
                            lemma_same_edge(
                                start.x as int,
                                start.y as int,
                                first as int,
                                start.x as int,
                                start.y as int,
                                e,
                            );
                        }
                    }
                }
            } else if nxt != start && !junction(g, start.x as int, start.y as int) {
                assert forall|e: int| is_dir(e) && #[trigger] crack(
                    g,
                    start.x as int,
                    start.y as int,
                    e,
                ) implies (own.dom().contains(edge_of(start.x as int, start.y as int, e)) <==> e
                    == first) by {
                    if edge_of(start.x as int, start.y as int, e) == e0 {
                        lemma_same_edge(
                            cur.x as int,
                            cur.y as int,
                            dir as int,
                            start.x as int,
                            start.y as int,
                            e,
                        );
                    }
                }
            }
        }
        let ghost prev = cur;
        let ghost went = dir;
        if is_junction(seg, nxt) || nxt == start {
            cur = nxt;
            done = true;
            proof {
                if !junction(g, start.x as int, start.y as int) {
                    if nxt != start {
                        // A junction whose cracks are all taken cannot be reached.
                        assert(crack(g, nxt.x as int, nxt.y as int, opp(went as int)));
                        assert(false);
                    }
                    lemma_return(g, own0.dom(), start, first as int, prev, went as int);
                }
                assert forall|i: int, j: int| in_lattice(g, i, j) && !junction(
                    g,
                    i,
                    j,
                ) implies #[trigger] even_handed(g, own.dom(), i, j) by {
                }
            }
        } else {
            let back: u32 = if dir < 2 {
                dir + 2
            } else {
                dir - 2
            };
            proof {
                assert(crack(g, nxt.x as int, nxt.y as int, back as int));
                assert(even_handed(g, own0.dom(), nxt.x as int, nxt.y as int));
            }
            let onto: u32 = onward(seg, nxt, back);
            proof {
                lemma_arrive(g, own0.dom(), cur, dir as int, nxt, onto as int);
            }
            cur = nxt;
            dir = onto;
        }
    }
    let ghost nodes0 = nodes@;
    let end_node: u32 = nodes.intern(cur);
    let loop_arc: bool = start_node == end_node;
    let on_border: bool = left == OUTSIDE || right == OUTSIDE;
    let arc = Arc {
        points,
        start_node,
        end_node,
        left,
        right,
        loop_arc,
        on_border,
        corners: Vec::new(),
    };
    proof {
        nodes.lemma_distinct();
        assert(nodes@[start_node as int] == start);
        let more = arcs.push(arc);
        assert(lines_of(more) =~= lines.push(arc.points@));
        assert(more.drop_last() =~= arcs);
        assert forall|a: int| 0 <= a < more.len() implies arc_ok(g, nodes@, #[trigger] more[a]) by {
            if a < arcs.len() {
                assert(arc_ok(g, nodes0, arcs[a]));
            }
        }
    }
    (arc, Ghost(own))
}

proof fn lemma_telescope(c: int, s: int, p: int, n: int)
    ensures
        c * (s - p) + c * (p - n) == c * (s - n),
{
    assert(c * (s - p) + c * (p - n) == c * (s - n)) by (nonlinear_arith);
}

// ---- Tracing the whole image --------------------------------------------

/// Where direction `d` comes among the four spokes of a node: west, east,
/// north, south.
pub open spec fn spoke_rank(d: int) -> int {
    if d == 2 {
        0
    } else if d == 0 {
        1
    } else if d == 3 {
        2
    } else {
        3
    }
}

/// Scan position of a spoke: rows first, then columns, then the spokes.
pub open spec fn spoke_key(i: int, j: int, d: int) -> (int, int, int) {
    (j, i, spoke_rank(d))
}

/// Lexicographic order of scan positions.
pub open spec fn before(a: (int, int, int), b: (int, int, int)) -> bool {
    a.0 < b.0 || (a.0 == b.0 && (a.1 < b.1 || (a.1 == b.1 && a.2 < b.2)))
}

/// Scan position of the first step of a line.
pub open spec fn start_key(line: Seq<GridPoint>) -> (int, int, int) {
    spoke_key(line[0].x as int, line[0].y as int, dir_between(line[0], line[1]))
}

/// Scan position of the first step of a line walked backwards.
pub open spec fn end_key(line: Seq<GridPoint>) -> (int, int, int) {
    let n = line.len() as int;
    spoke_key(line[n - 1].x as int, line[n - 1].y as int, dir_between(line[n - 1], line[n - 2]))
}

pub open spec fn starts_at_junction(g: RegionGrid, line: Seq<GridPoint>) -> bool {
    junction(g, line[0].x as int, line[0].y as int)
}

/// Each arc is traced from whichever of its ends comes first in scan order, a
/// loop without junctions from its first corner.
pub open spec fn starts_early(g: RegionGrid, line: Seq<GridPoint>) -> bool {
    if starts_at_junction(g, line) {
        before(start_key(line), end_key(line))
    } else {
        forall|k: int|
            0 <= k < line.len() ==> !before(
                ((#[trigger] line[k]).y as int, line[k].x as int, 0),
                (line[0].y as int, line[0].x as int, 0),
            )
    }
}

/// Arc `a` precedes arc `b`: arcs between junctions come first, and then each
/// kind in scan order of its start.
pub open spec fn line_precedes(g: RegionGrid, a: Seq<GridPoint>, b: Seq<GridPoint>) -> bool {
    if starts_at_junction(g, a) == starts_at_junction(g, b) {
        before(start_key(a), start_key(b))
    } else {
        starts_at_junction(g, a)
    }
}

/// The order in which arcs are listed, and the end from which each is traced.
pub open spec fn in_scan_order(g: RegionGrid, lines: Seq<Seq<GridPoint>>) -> bool {
    &&& forall|a: int, b: int|
        0 <= a < b < lines.len() ==> line_precedes(g, #[trigger] lines[a], #[trigger] lines[b])
    &&& forall|a: int| 0 <= a < lines.len() ==> starts_early(g, #[trigger] lines[a])
}

/// Some line runs along crack `e`.
pub open spec fn on_some_line(lines: Seq<Seq<GridPoint>>, e: (int, int, int)) -> bool {
    exists|a: int, k: int| is_line_step(lines, a, k) && #[trigger] line_edge(lines, a, k) == e
}

/// Every crack of the image is run along, and by one step of one line only.
pub open spec fn is_partition(g: RegionGrid, lines: Seq<Seq<GridPoint>>) -> bool {
    &&& forall|i: int, j: int, d: int|
        in_lattice(g, i, j) && is_dir(d) && crack(g, i, j, d) ==> on_some_line(
            lines,
            #[trigger] edge_of(i, j, d),
        )
    &&& forall|a: int, k: int, b: int, l: int|
        is_line_step(lines, a, k) && is_line_step(lines, b, l) && #[trigger] line_edge(lines, a, k)
            == #[trigger] line_edge(lines, b, l) ==> a == b && k == l
}

pub open spec fn all_distinct(nodes: Seq<GridPoint>) -> bool {
    forall|a: int, b: int|
        0 <= a < nodes.len() && 0 <= b < nodes.len() && #[trigger] nodes[a] == #[trigger] nodes[b]
            ==> a == b
}

/// At every node, as much of each region's boundary starts as ends.
pub open spec fn balanced(g: RegionGrid, arcs: Seq<Arc<GridPoint>>) -> bool {
    forall|x: u32, i: int, j: int| in_lattice(g, i, j) ==> #[trigger] arcs_flow(arcs, x, i, j) == 0
}

/// The cracks at nodes of the given kind that precede `pos` in scan order are in
/// use.
spec fn swept(
    g: RegionGrid,
    used: Set<(int, int, int)>,
    junctions_only: bool,
    pos: (int, int, int),
) -> bool {
    forall|i: int, j: int, d: int|
        in_lattice(g, i, j) && is_dir(d) && #[trigger] crack(g, i, j, d) && (junction(g, i, j)
            || !junctions_only) && before(spoke_key(i, j, d), pos) ==> used.contains(
            edge_of(i, j, d),
        )
}

/// Lines from `from` on start before scan position `pos`.
spec fn started_before(lines: Seq<Seq<GridPoint>>, from: int, pos: (int, int, int)) -> bool {
    forall|a: int| from <= a < lines.len() ==> before(start_key(#[trigger] lines[a]), pos)
}

/// A traced arc takes cracks that were free before.
proof fn lemma_fresh(
    lines: Seq<Seq<GridPoint>>,
    owner: Map<(int, int, int), (int, int)>,
    line: Seq<GridPoint>,
    own: Map<(int, int, int), (int, int)>,
    k: int,
)
    requires
        owns(lines, owner),
        owns(lines.push(line), own),
        owner.submap_of(own),
        0 <= k < line.len() - 1,
    ensures
        !owner.dom().contains(line_edge(lines.push(line), lines.len() as int, k)),
{
    let more = lines.push(line);
    let e = line_edge(more, lines.len() as int, k);
    assert(is_line_step(more, lines.len() as int, k));
    if owner.dom().contains(e) {
        assert(is_line_step(lines, owner[e].0, owner[e].1));
        assert(own[e] == owner[e]);
    }
}

/// The arc found at scan position `pos` starts at its earlier end.
proof fn lemma_starts_early(
    g: RegionGrid,
    arcs: Seq<Arc<GridPoint>>,
    owner: Map<(int, int, int), (int, int)>,
    arc: Arc<GridPoint>,
    own: Map<(int, int, int), (int, int)>,
    nodes: Seq<GridPoint>,
    junctions_only: bool,
)
    requires
        owns(lines_of(arcs), owner),
        owns(lines_of(arcs.push(arc)), own),
        owner.submap_of(own),
        arc_ok(g, nodes, arc),
        starts_at_junction(g, arc.points@) == junctions_only,
        swept(g, owner.dom(), junctions_only, start_key(arc.points@)),
    ensures
        starts_early(g, arc.points@),
{
    let lines = lines_of(arcs);
    let line = arc.points@;
    let more = lines.push(line);
    assert(lines_of(arcs.push(arc)) =~= more);
    let n = line.len() as int;
    assert(more[lines.len() as int] == line);
    if junctions_only {
        let p = line[n - 2];
        let q = line[n - 1];
        assert(good_step(g, line, n - 2, arc.left, arc.right));
        assert(good_step(g, line, 0, arc.left, arc.right));
        let d = dir_between(p, q);
        lemma_reverse_step(g, p.x as int, p.y as int, d);
        assert(dir_between(q, p) == opp(d));
        let e = edge_of(q.x as int, q.y as int, opp(d));
        assert(e == line_edge(more, lines.len() as int, n - 2));
        lemma_fresh(lines, owner, line, own, n - 2);
        assert(crack(g, q.x as int, q.y as int, opp(d)));
        assert(!before(end_key(line), start_key(line)));
        if end_key(line) == start_key(line) {
            assert(is_dir(dir_between(line[0], line[1])));
            assert(dir_between(line[0], line[1]) == opp(d));
            assert(e == line_edge(more, lines.len() as int, 0));
            assert(is_line_step(more, lines.len() as int, 0));
            assert(is_line_step(more, lines.len() as int, n - 2));
            assert(n == 2);
            assert(false);
        }
    } else {
        assert forall|k: int| 0 <= k < line.len() implies !before(
            ((#[trigger] line[k]).y as int, line[k].x as int, 0),
            (line[0].y as int, line[0].x as int, 0),
        ) by {
            let p = line[k];
            if before((p.y as int, p.x as int, 0), (line[0].y as int, line[0].x as int, 0)) {
                assert(k < n - 1);
                assert(good_step(g, line, k, arc.left, arc.right));
                let d = dir_between(p, line[k + 1]);
                lemma_fresh(lines, owner, line, own, k);
                assert(line_edge(more, lines.len() as int, k) == edge_of(p.x as int, p.y as int, d));
                assert(crack(g, p.x as int, p.y as int, d));
                assert(before(spoke_key(p.x as int, p.y as int, d), start_key(line)));
                assert(false);
            }
        }
    }
}

/// The direction at place `k` of a node's four spokes.
fn spoke_dir(k: u32) -> (d: u32)
    requires
        k < 4,
    ensures
        d < 4,
        spoke_rank(d as int) == k,
{
    if k == 0 {
        2
    } else if k == 1 {
        0
    } else if k == 2 {
        3
    } else {
        1
    }
}

/// Everything that is known of the arcs listed so far, up to scan position
/// `pos` of the pass that looks at junctions only, or of the pass that picks up
/// the loops without junctions.
spec fn pass_inv(
    g: RegionGrid,
    arcs: Seq<Arc<GridPoint>>,
    owner: Map<(int, int, int), (int, int)>,
    junctions_only: bool,
    first: int,
    pos: (int, int, int),
) -> bool {
    let lines = lines_of(arcs);
    &&& 0 <= first <= arcs.len()
    &&& swept(g, owner.dom(), junctions_only, pos)
    &&& started_before(lines, first, pos)
    &&& in_scan_order(g, lines)
    &&& forall|a: int|
        0 <= a < first ==> starts_at_junction(g, #[trigger] lines[a])
    &&& forall|a: int|
        first <= a < lines.len() ==> starts_at_junction(g, #[trigger] lines[a]) == junctions_only
    &&& junctions_only ==> first == 0
    &&& !junctions_only ==> junctions_done(g, owner.dom())
}

/// Moving the scan position past a spoke that is in use, or is none of the
/// pass's business.
proof fn lemma_pass_skip(
    g: RegionGrid,
    arcs: Seq<Arc<GridPoint>>,
    owner: Map<(int, int, int), (int, int)>,
    junctions_only: bool,
    first: int,
    i: int,
    j: int,
    k: int,
    next: (int, int, int),
)
    requires
        pass_inv(g, arcs, owner, junctions_only, first, (j, i, k)),
        0 <= k < 4,
        0 <= i <= g.w,
        next == (j, i, k + 1) || (next == (j, i + 1, 0int) && (k == 3 || (junctions_only && !junction(
            g,
            i,
            j,
        )))),
        forall|d: int|
            is_dir(d) && #[trigger] crack(g, i, j, d) && spoke_rank(d) == k && (junction(g, i, j)
                || !junctions_only) ==> owner.dom().contains(edge_of(i, j, d)),
    ensures
        pass_inv(g, arcs, owner, junctions_only, first, next),
{
    assert forall|i2: int, j2: int, d: int|
        in_lattice(g, i2, j2) && is_dir(d) && #[trigger] crack(g, i2, j2, d) && (junction(g, i2, j2)
            || !junctions_only) && before(spoke_key(i2, j2, d), next) implies owner.dom().contains(
        edge_of(i2, j2, d),
    ) by {
        if !before(spoke_key(i2, j2, d), (j, i, k)) {
            assert(i2 == i && j2 == j);
        }
    }
    let lines = lines_of(arcs);
    assert forall|a: int| first <= a < lines.len() implies before(
        start_key(#[trigger] lines[a]),
        next,
    ) by {
        assert(before(start_key(lines[a]), (j, i, k)));
    }
}

/// From the end of a row to the start of the next.
proof fn lemma_pass_row(
    g: RegionGrid,
    arcs: Seq<Arc<GridPoint>>,
    owner: Map<(int, int, int), (int, int)>,
    junctions_only: bool,
    first: int,
    j: int,
)
    requires
        pass_inv(g, arcs, owner, junctions_only, first, (j, g.w + 1, 0)),
    ensures
        pass_inv(g, arcs, owner, junctions_only, first, (j + 1, 0, 0)),
{
    assert forall|i2: int, j2: int, d: int|
        in_lattice(g, i2, j2) && is_dir(d) && #[trigger] crack(g, i2, j2, d) && (junction(g, i2, j2)
            || !junctions_only) && before(spoke_key(i2, j2, d), (j + 1, 0, 0)) implies owner.dom().contains(
        edge_of(i2, j2, d),
    ) by {
        assert(before(spoke_key(i2, j2, d), (j, g.w + 1, 0)));
    }
    let lines = lines_of(arcs);
    assert forall|a: int| first <= a < lines.len() implies before(
        start_key(#[trigger] lines[a]),
        (j + 1, 0, 0),
    ) by {
        assert(before(start_key(lines[a]), (j, g.w + 1, 0)));
    }
}

/// Listing the arc found at the scan position.
proof fn lemma_pass_push(
    g: RegionGrid,
    arcs: Seq<Arc<GridPoint>>,
    owner: Map<(int, int, int), (int, int)>,
    arc: Arc<GridPoint>,
    own: Map<(int, int, int), (int, int)>,
    nodes: Seq<GridPoint>,
    junctions_only: bool,
    first: int,
    i: int,
    j: int,
    d: int,
)
    requires
        pass_inv(g, arcs, owner, junctions_only, first, (j, i, spoke_rank(d))),
        owns(lines_of(arcs), owner),
        owns(lines_of(arcs.push(arc)), own),
        owner.submap_of(own),
        arc_ok(g, nodes, arc),
        starts_at_junction(g, arc.points@) == junctions_only,
        start_key(arc.points@) == (j, i, spoke_rank(d)),
        is_dir(d),
        own.dom().contains(edge_of(i, j, d)),
    ensures
        pass_inv(g, arcs.push(arc), own, junctions_only, first, (j, i, spoke_rank(d) + 1)),
{
    let lines = lines_of(arcs);
    let more = lines_of(arcs.push(arc));
    assert(more =~= lines.push(arc.points@));
    lemma_starts_early(g, arcs, owner, arc, own, nodes, junctions_only);
    let pos = (j, i, spoke_rank(d));
    let next = (j, i, spoke_rank(d) + 1);
    assert forall|i2: int, j2: int, e: int|
        in_lattice(g, i2, j2) && is_dir(e) && #[trigger] crack(g, i2, j2, e) && (junction(g, i2, j2)
            || !junctions_only) && before(spoke_key(i2, j2, e), next) implies own.dom().contains(
        edge_of(i2, j2, e),
    ) by {
        if before(spoke_key(i2, j2, e), pos) {
            assert(owner.dom().contains(edge_of(i2, j2, e)));
        } else {
            assert(i2 == i && j2 == j && spoke_rank(e) == spoke_rank(d));
            assert(e == d);
        }
    }
    assert forall|a: int, b: int| 0 <= a < b < more.len() implies line_precedes(
        g,
        #[trigger] more[a],
        #[trigger] more[b],
    ) by {
        if b < lines.len() {
            assert(line_precedes(g, lines[a], lines[b]));
        } else {
            assert(more[a] == lines[a]);
            if a >= first {
                assert(before(start_key(lines[a]), pos));
            } else {
                assert(starts_at_junction(g, lines[a]));
            }
        }
    }
    assert forall|a: int| 0 <= a < more.len() implies starts_early(g, #[trigger] more[a]) by {
        if a < lines.len() {
            assert(starts_early(g, lines[a]));
        }
    }
    assert forall|a: int| first <= a < more.len() implies before(
        start_key(#[trigger] more[a]),
        next,
    ) by {
        if a < lines.len() {
            assert(before(start_key(lines[a]), pos));
        }
    }
    assert forall|a: int| 0 <= a < first implies starts_at_junction(g, #[trigger] more[a]) by {
        assert(starts_at_junction(g, lines[a]));
    }
    assert forall|a: int| first <= a < more.len() implies starts_at_junction(g, #[trigger] more[a])
        == junctions_only by {
        if a < lines.len() {
            assert(starts_at_junction(g, lines[a]) == junctions_only);
        }
    }
    if !junctions_only {
        assert forall|i2: int, j2: int, e: int|
            in_lattice(g, i2, j2) && junction(g, i2, j2) && is_dir(e) && #[trigger] crack(
                g,
                i2,
                j2,
                e,
            ) implies own.dom().contains(edge_of(i2, j2, e)) by {
            assert(owner.dom().contains(edge_of(i2, j2, e)));
        }
    }
}

/// One sweep over the lattice: trace every arc that starts at a junction, or,
/// once those are traced, every loop that is left.
fn sweep<L>(
    seg: &Segmentation<L>,
    used: &mut EdgeSet,
    nodes: &mut NodeTable,
    arcs: &mut Vec<Arc<GridPoint>>,
    junctions_only: bool,
    Ghost(owner): Ghost<Map<(int, int, int), (int, int)>>,
) -> (out: Ghost<Map<(int, int, int), (int, int)>>)
    requires
        seg.traceable(),
        traced(seg.grid(), old(arcs)@, owner, *old(used), *old(nodes)),
        pass_inv(
            seg.grid(),
            old(arcs)@,
            owner,
            junctions_only,
            old(arcs)@.len() as int,
            (0, 0, 0),
        ),
    ensures
        traced(seg.grid(), final(arcs)@, out@, *final(used), *final(nodes)),
        pass_inv(
            seg.grid(),
            final(arcs)@,
            out@,
            junctions_only,
            old(arcs)@.len() as int,
            (seg.grid().h + 1, 0, 0),
        ),
{
    let ghost g = seg.grid();
    let ghost first = arcs@.len() as int;
    let ghost mut own = owner;
    let w: u32 = seg.width;
    let h: u32 = seg.height;
    proof {
        lemma_lattice_small(w as int, h as int);
    }
    let mut j: u32 = 0;
    while j <= h
        invariant
            g == seg.grid(),
            w == seg.width,
            h == seg.height,
            w + 1 < u32::MAX,
            h + 1 < u32::MAX,
            j <= h + 1,
            seg.traceable(),
            traced(g, arcs@, own, *used, *nodes),
            pass_inv(g, arcs@, own, junctions_only, first, (j as int, 0, 0)),
        decreases h + 1 - j,
    {
        let mut i: u32 = 0;
        while i <= w
            invariant
                g == seg.grid(),
                w == seg.width,
                h == seg.height,
                w + 1 < u32::MAX,
                i <= w + 1,
                j <= h,
                seg.traceable(),
                traced(g, arcs@, own, *used, *nodes),
                pass_inv(g, arcs@, own, junctions_only, first, (j as int, i as int, 0)),
            decreases w + 1 - i,
        {
            let p = GridPoint { x: i, y: j };
            if junctions_only && !is_junction(seg, p) {
                proof {
                    lemma_pass_skip(
                        g,
                        arcs@,
                        own,
                        junctions_only,
                        first,
                        i as int,
                        j as int,
                        0,
                        (j as int, i + 1, 0),
                    );
                }
            } else {
                let mut k: u32 = 0;
                while k < 4
                    invariant
                        g == seg.grid(),
                        w == seg.width,
                        h == seg.height,
                        i <= w,
                        j <= h,
                        k <= 4,
                        p == (GridPoint { x: i, y: j }),
                        seg.traceable(),
                        junctions_only ==> junction(g, i as int, j as int),
                        traced(g, arcs@, own, *used, *nodes),
                        pass_inv(
                            g,
                            arcs@,
                            own,
                            junctions_only,
                            first,
                            (j as int, i as int, k as int),
                        ),
                    decreases 4 - k,
                {
                    let d: u32 = spoke_dir(k);
                    let ghost own0 = own;
                    let ghost arcs0 = arcs@;
                    if crack_at(seg, p, d) && !is_taken(used, p, d, Ghost(g)) {
                        let start_node: u32 = nodes.intern(p);
                        proof {
                            assert forall|a: int| 0 <= a < arcs0.len() implies arc_ok(
                                g,
                                nodes@,
                                #[trigger] arcs0[a],
                            ) by {
                            }
                        }
                        let (arc, Ghost(more)) = walk_arc(
                            seg,
                            used,
                            nodes,
                            p,
                            d,
                            start_node,
                            Ghost(arcs0),
                            Ghost(own0),
                        );
                        proof {
                            own = more;
                            assert(arcs0.push(arc)[arcs0.len() as int] == arc);
                            if !junctions_only {
                                assert(!junction(g, i as int, j as int));
                            }
                            lemma_pass_push(
                                g,
                                arcs0,
                                own0,
                                arc,
                                own,
                                nodes@,
                                junctions_only,
                                first,
                                i as int,
                                j as int,
                                d as int,
                            );
                        }
                        arcs.push(arc);
                    } else {
                        proof {
                            lemma_pass_skip(
                                g,
                                arcs@,
                                own,
                                junctions_only,
                                first,
                                i as int,
                                j as int,
                                k as int,
                                (j as int, i as int, k + 1),
                            );
                        }
                    }
                    k = k + 1;
                }
                proof {
                    lemma_pass_node(g, arcs@, own, junctions_only, first, i as int, j as int);
                }
            }
            i = i + 1;
        }
        proof {
            lemma_pass_row(g, arcs@, own, junctions_only, first, j as int);
        }
        j = j + 1;
    }
    Ghost(own)
}

/// From the last spoke of a node to the next node.
proof fn lemma_pass_node(
    g: RegionGrid,
    arcs: Seq<Arc<GridPoint>>,
    owner: Map<(int, int, int), (int, int)>,
    junctions_only: bool,
    first: int,
    i: int,
    j: int,
)
    requires
        pass_inv(g, arcs, owner, junctions_only, first, (j, i, 4)),
    ensures
        pass_inv(g, arcs, owner, junctions_only, first, (j, i + 1, 0)),
{
    assert forall|i2: int, j2: int, d: int|
        in_lattice(g, i2, j2) && is_dir(d) && #[trigger] crack(g, i2, j2, d) && (junction(g, i2, j2)
            || !junctions_only) && before(spoke_key(i2, j2, d), (j, i + 1, 0)) implies owner.dom().contains(
        edge_of(i2, j2, d),
    ) by {
        assert(before(spoke_key(i2, j2, d), (j, i, 4)));
    }
    let lines = lines_of(arcs);
    assert forall|a: int| first <= a < lines.len() implies before(
        start_key(#[trigger] lines[a]),
        (j, i + 1, 0),
    ) by {
        assert(before(start_key(lines[a]), (j, i, 4)));
    }
}

/// What tracing the arcs of an image yields.
pub open spec fn arcs_ok(
    g: RegionGrid,
    nodes: Seq<GridPoint>,
    arcs: Seq<Arc<GridPoint>>,
) -> bool {
    &&& forall|a: int| 0 <= a < arcs.len() ==> arc_ok(g, nodes, #[trigger] arcs[a])
    &&& is_partition(g, lines_of(arcs))
    &&& in_scan_order(g, lines_of(arcs))
    &&& all_distinct(nodes)
}

/// Cut the crack graph of the image into arcs, and number their end nodes.
pub fn trace_arcs<L>(seg: &Segmentation<L>) -> (out: (Vec<Arc<GridPoint>>, Vec<GridPoint>))
    requires
        seg.traceable(),
    ensures
        arcs_ok(seg.grid(), out.1@, out.0@),
        balanced(seg.grid(), out.0@),
        out.0@.len() <= 2 * ((seg.width + 1) * (seg.height + 1)),
        vertex_count(out.0@) <= 4 * ((seg.width + 1) * (seg.height + 1)),
        out.1@.len() < u32::MAX,
        forall|a: int|
            0 <= a < out.0@.len() ==> (#[trigger] out.0@[a]).points@.len() <= 2 * ((seg.width + 1)
                * (seg.height + 1)) + 1,
        forall|k: int|
            0 <= k < out.1@.len() ==> in_lattice(
                seg.grid(),
                (#[trigger] out.1@[k]).x as int,
                out.1@[k].y as int,
            ),
{
    let ghost g = seg.grid();
    proof {
        lemma_lattice_small(seg.width as int, seg.height as int);
    }
    let stride: usize = (seg.width + 1) as usize;
    let rows: usize = (seg.height + 1) as usize;
    let mut used = EdgeSet::new(stride, rows);
    let mut nodes = NodeTable::new(stride, rows);
    let mut arcs: Vec<Arc<GridPoint>> = Vec::new();
    let ghost owner = Map::<(int, int, int), (int, int)>::empty();
    proof {
        assert(lines_of(arcs@) =~= Seq::<Seq<GridPoint>>::empty());
        assert(owner.dom() =~= Set::<(int, int, int)>::empty());
        assert forall|x: u32, i: int, j: int|
            #[trigger] node_flow(g, owner.dom(), x, i, j) == arcs_flow(arcs@, x, i, j) by {
        }
        assert forall|i: int, j: int| in_lattice(g, i, j) && !junction(
            g,
            i,
            j,
        ) implies #[trigger] even_handed(g, owner.dom(), i, j) by {
        }
        assert(traced(g, arcs@, owner, used, nodes));
        assert(pass_inv(g, arcs@, owner, true, 0, (0, 0, 0)));
    }
    // Arcs that run between junctions.
    let Ghost(owner) = sweep(seg, &mut used, &mut nodes, &mut arcs, true, Ghost(owner));
    proof {
        assert(junctions_done(g, owner.dom())) by {
            assert forall|i: int, j: int, d: int|
                in_lattice(g, i, j) && junction(g, i, j) && is_dir(d) && #[trigger] crack(
                    g,
                    i,
                    j,
                    d,
                ) implies owner.dom().contains(edge_of(i, j, d)) by {
                assert(before(spoke_key(i, j, d), (g.h + 1, 0, 0)));
            }
        }
        assert(pass_inv(g, arcs@, owner, false, arcs@.len() as int, (0, 0, 0)));
    }
    // Closed loops with no junction on them. A lone blob on a plain background
    // produces one of these: every node on its contour has degree 2.
    let Ghost(owner) = sweep(seg, &mut used, &mut nodes, &mut arcs, false, Ghost(owner));
    proof {
        let lines = lines_of(arcs@);
        assert forall|i: int, j: int, d: int|
            in_lattice(g, i, j) && is_dir(d) && crack(g, i, j, d) implies on_some_line(
            lines,
            #[trigger] edge_of(i, j, d),
        ) by {
            assert(before(spoke_key(i, j, d), (g.h + 1, 0, 0)));
            let e = edge_of(i, j, d);
            assert(owner.dom().contains(e));
            assert(is_line_step(lines, owner[e].0, owner[e].1));
        }
        assert forall|a: int, k: int, b: int, l: int|
            is_line_step(lines, a, k) && is_line_step(lines, b, l) && #[trigger] line_edge(
                lines,
                a,
                k,
            ) == #[trigger] line_edge(lines, b, l) implies a == b && k == l by {
            assert(owner[line_edge(lines, a, k)] == (a, k));
            assert(owner[line_edge(lines, b, l)] == (b, l));
        }
        assert forall|x: u32, i: int, j: int| in_lattice(g, i, j) implies #[trigger] arcs_flow(
            arcs@,
            x,
            i,
            j,
        ) == 0 by {
            assert forall|d: int| is_dir(d) && #[trigger] crack(
                g,
                i,
                j,
                d,
            ) implies owner.dom().contains(edge_of(i, j, d)) by {
                assert(before(spoke_key(i, j, d), (g.h + 1, 0, 0)));
            }
            lemma_flow_full(g, owner.dom(), x, i, j);
            assert(node_flow(g, owner.dom(), x, i, j) == arcs_flow(arcs@, x, i, j));
        }
        nodes.lemma_distinct();
    }
    (arcs, nodes.into_nodes())
}

} // verus!
