//! Chaining the arcs round each region into closed rings.

use crate::cracks::{
    arc_flow, arc_ok, arcs_flow, arcs_ok, balanced, dir_between, in_lattice, one_if, step_x,
    step_y, Arc,
};
use crate::lattice::GridPoint;
use crate::segment::RegionGrid;
use vstd::prelude::*;

verus! {

/// An arc walked forwards or backwards.
#[derive(Clone, Copy, Debug, PartialEq, Eq, Structural)]
pub struct ArcRef {
    pub arc: u32,
    pub reversed: bool,
}

/// Place of a directed reference among all of them: arc by arc, forwards first.
pub open spec fn ref_index(r: ArcRef) -> int {
    2 * (r.arc as int) + one_if(r.reversed)
}

pub open spec fn is_ref(arcs: Seq<Arc<GridPoint>>, r: ArcRef) -> bool {
    r.arc < arcs.len()
}

/// The region that a directed reference bounds: it lies on its left.
pub open spec fn ref_region(arcs: Seq<Arc<GridPoint>>, r: ArcRef) -> u32 {
    let a = arcs[r.arc as int];
    if r.reversed {
        a.right
    } else {
        a.left
    }
}

/// Start node of a directed arc reference.
pub open spec fn ref_start(arcs: Seq<Arc<GridPoint>>, r: ArcRef) -> u32 {
    let a = arcs[r.arc as int];
    if r.reversed {
        a.end_node
    } else {
        a.start_node
    }
}

/// End node of a directed arc reference.
pub open spec fn ref_end(arcs: Seq<Arc<GridPoint>>, r: ArcRef) -> u32 {
    let a = arcs[r.arc as int];
    if r.reversed {
        a.start_node
    } else {
        a.end_node
    }
}

/// Direction leaving the start of a directed reference.
pub open spec fn ref_out(arcs: Seq<Arc<GridPoint>>, r: ArcRef) -> int {
    let p = arcs[r.arc as int].points@;
    if r.reversed {
        dir_between(p[p.len() - 1], p[p.len() - 2])
    } else {
        dir_between(p[0], p[1])
    }
}

/// Direction arriving at the end of a directed reference.
pub open spec fn ref_in(arcs: Seq<Arc<GridPoint>>, r: ArcRef) -> int {
    let p = arcs[r.arc as int].points@;
    if r.reversed {
        dir_between(p[1], p[0])
    } else {
        dir_between(p[p.len() - 2], p[p.len() - 1])
    }
}

/// How far right a turn goes: a left turn is -1, straight on 0, a right turn 1,
/// and turning back 2.
pub open spec fn turn(incoming: int, outgoing: int) -> int {
    let d = if outgoing >= incoming {
        outgoing - incoming
    } else {
        outgoing - incoming + 4
    };
    if d == 3 {
        -1
    } else {
        d
    }
}

/// `r` is to be taken rather than `c` where both leave the node at which
/// `from` arrives: it turns further left, or as far and is listed earlier.
pub open spec fn preferred(
    arcs: Seq<Arc<GridPoint>>,
    from: ArcRef,
    r: ArcRef,
    c: ArcRef,
) -> bool {
    let tr = turn(ref_in(arcs, from), ref_out(arcs, r));
    let tc = turn(ref_in(arcs, from), ref_out(arcs, c));
    tr < tc || (tr == tc && ref_index(r) <= ref_index(c))
}

/// `c` occurs in one of `loops`.
pub open spec fn listed(loops: Seq<Seq<ArcRef>>, c: ArcRef) -> bool {
    exists|q: int| 0 <= q < loops.len() && (#[trigger] loops[q]).contains(c)
}

/// The references of `ring` lead from one to the next and back to the start.
pub open spec fn is_closed_chain(arcs: Seq<Arc<GridPoint>>, ring: Seq<ArcRef>) -> bool {
    &&& ring.len() > 0
    &&& forall|k: int, l: int|
        0 <= k && l == k + 1 && l < ring.len() ==> ref_end(arcs, #[trigger] ring[k]) == ref_start(
            arcs,
            #[trigger] ring[l],
        )
    &&& ref_end(arcs, ring.last()) == ref_start(arcs, ring[0])
}

/// A directed reference that bounds region `x` and leaves node `v`, and that
/// occurs neither in `loops` nor in `part`.
pub open spec fn still_open(
    arcs: Seq<Arc<GridPoint>>,
    x: u32,
    loops: Seq<Seq<ArcRef>>,
    part: Seq<ArcRef>,
    v: u32,
    c: ArcRef,
) -> bool {
    &&& is_ref(arcs, c)
    &&& ref_region(arcs, c) == x
    &&& ref_start(arcs, c) == v
    &&& !listed(loops, c)
    &&& !part.contains(c)
}

/// Ring `ring` of region `x`, chained after the rings in `loops`. It starts at
/// the first reference that those left over, takes the sharpest left turn that
/// is open at every node, and ends as soon as it is back at its start. The left
/// turns hug the region as tightly as possible, which keeps a pinch point (a
/// region touching itself corner to corner) from swallowing the wrong lobe.
#[verifier::opaque]
pub open spec fn ring_ok(
    arcs: Seq<Arc<GridPoint>>,
    x: u32,
    loops: Seq<Seq<ArcRef>>,
    ring: Seq<ArcRef>,
) -> bool {
    &&& is_closed_chain(arcs, ring)
    &&& forall|k: int|
        0 <= k < ring.len() ==> is_ref(arcs, #[trigger] ring[k]) && ref_region(arcs, ring[k]) == x
            && !listed(loops, ring[k])
    &&& forall|k: int, l: int|
        0 <= k < ring.len() && 0 <= l < ring.len() && #[trigger] ring[k] == #[trigger] ring[l]
            ==> k == l
    &&& forall|k: int|
        0 <= k < ring.len() - 1 ==> ref_end(arcs, #[trigger] ring[k]) != ref_start(arcs, ring[0])
    &&& forall|c: ArcRef| #[trigger]
        is_ref(arcs, c) && ref_region(arcs, c) == x && !listed(loops, c) ==> ref_index(ring[0])
            <= ref_index(c)
    &&& forall|k: int, c: ArcRef|
        0 <= k < ring.len() - 1 && #[trigger] still_open(
            arcs,
            x,
            loops,
            ring.take(k + 1),
            ref_end(arcs, ring[k]),
            c,
        ) ==> preferred(arcs, ring[k], ring[k + 1], c)
}

/// `loops` are the boundary rings of region `x`: each directed reference that
/// bounds the region is in exactly one of them, once.
pub open spec fn rings_ok(
    arcs: Seq<Arc<GridPoint>>,
    x: u32,
    loops: Seq<Seq<ArcRef>>,
) -> bool {
    &&& forall|q: int| 0 <= q < loops.len() ==> ring_ok(arcs, x, loops.take(q), #[trigger] loops[q])
    &&& forall|c: ArcRef| #[trigger]
        is_ref(arcs, c) && ref_region(arcs, c) == x ==> listed(loops, c)
}

// ---- Flow ---------------------------------------------------------------

/// The arcs' tables are consistent with `n` nodes.
spec fn refs_wf(arcs: Seq<Arc<GridPoint>>, n: int) -> bool {
    &&& arcs.len() <= u32::MAX
    &&& 2 * arcs.len() <= usize::MAX
    &&& forall|a: int|
        0 <= a < arcs.len() ==> (#[trigger] arcs[a]).points@.len() >= 2 && arcs[a].start_node < n
            && arcs[a].end_node < n
}

spec fn ends_differ(a: Arc<GridPoint>, v: int) -> int {
    one_if(a.start_node == v) - one_if(a.end_node == v)
}

/// What the unused references to arc `k` add to the flow out of node `v`.
spec fn open_arc_flow(
    arcs: Seq<Arc<GridPoint>>,
    used: Seq<bool>,
    x: u32,
    v: int,
    k: int,
) -> int {
    let a = arcs[k];
    (if a.left == x && !used[2 * k] {
        ends_differ(a, v)
    } else {
        0
    }) - (if a.right == x && !used[2 * k + 1] {
        ends_differ(a, v)
    } else {
        0
    })
}

/// Unused references bounding `x` that start at node `v`, less those that end
/// there, among the first `m` arcs.
spec fn open_flow(arcs: Seq<Arc<GridPoint>>, used: Seq<bool>, x: u32, v: int, m: int) -> int
    decreases m,
{
    if m <= 0 {
        0
    } else {
        open_flow(arcs, used, x, v, m - 1) + open_arc_flow(arcs, used, x, v, m - 1)
    }
}

proof fn lemma_open_flow_same(
    arcs: Seq<Arc<GridPoint>>,
    used: Seq<bool>,
    used2: Seq<bool>,
    x: u32,
    v: int,
    m: int,
)
    requires
        0 <= m <= arcs.len(),
        used.len() == 2 * arcs.len(),
        used2.len() == 2 * arcs.len(),
        forall|k: int|
            0 <= k < m ==> (#[trigger] arcs[k]).left == x ==> used[2 * k] == used2[2 * k],
        forall|k: int|
            0 <= k < m ==> (#[trigger] arcs[k]).right == x ==> used[2 * k + 1] == used2[2 * k + 1],
    ensures
        open_flow(arcs, used, x, v, m) == open_flow(arcs, used2, x, v, m),
    decreases m,
{
    if m > 0 {
        lemma_open_flow_same(arcs, used, used2, x, v, m - 1);
        assert(arcs[m - 1].left == arcs[m - 1].left);
    }
}

/// Using up a reference takes away its start and its end.
proof fn lemma_open_flow_mark(
    arcs: Seq<Arc<GridPoint>>,
    used: Seq<bool>,
    x: u32,
    v: int,
    r: ArcRef,
    m: int,
)
    requires
        is_ref(arcs, r),
        ref_region(arcs, r) == x,
        used.len() == 2 * arcs.len(),
        !used[ref_index(r)],
        r.arc < m <= arcs.len(),
    ensures
        open_flow(arcs, used.update(ref_index(r), true), x, v, m) == open_flow(arcs, used, x, v, m)
            - one_if(ref_start(arcs, r) == v) + one_if(ref_end(arcs, r) == v),
    decreases m,
{
    let used2 = used.update(ref_index(r), true);
    if r.arc == m - 1 {
        lemma_open_flow_same(arcs, used, used2, x, v, m - 1);
    } else {
        lemma_open_flow_mark(arcs, used, x, v, r, m - 1);
    }
}

/// Where more starts than ends, something starts.
proof fn lemma_open_flow_positive(
    arcs: Seq<Arc<GridPoint>>,
    used: Seq<bool>,
    x: u32,
    v: int,
    m: int,
) -> (r: ArcRef)
    requires
        0 <= m <= arcs.len(),
        used.len() == 2 * arcs.len(),
        arcs.len() <= u32::MAX,
        2 * arcs.len() <= usize::MAX,
        open_flow(arcs, used, x, v, m) > 0,
    ensures
        is_ref(arcs, r),
        ref_region(arcs, r) == x,
        ref_start(arcs, r) == v,
        !used[ref_index(r)],
    decreases m,
{
    if open_arc_flow(arcs, used, x, v, m - 1) > 0 {
        let a = arcs[m - 1];
        if a.left == x && !used[2 * (m - 1)] && ends_differ(a, v) > 0 {
            ArcRef { arc: (m - 1) as u32, reversed: false }
        } else {
            ArcRef { arc: (m - 1) as u32, reversed: true }
        }
    } else {
        lemma_open_flow_positive(arcs, used, x, v, m - 1)
    }
}

/// Before anything is used up, the flow is that of the arcs themselves.
proof fn lemma_open_flow_initial(
    arcs: Seq<Arc<GridPoint>>,
    nodes: Seq<GridPoint>,
    used: Seq<bool>,
    x: u32,
    v: int,
    m: int,
)
    requires
        0 <= m <= arcs.len(),
        0 <= v < nodes.len(),
        used.len() == 2 * arcs.len(),
        arcs.len() <= u32::MAX,
        2 * arcs.len() <= usize::MAX,
        forall|a: int, b: int|
            0 <= a < nodes.len() && 0 <= b < nodes.len() && #[trigger] nodes[a]
                == #[trigger] nodes[b] ==> a == b,
        forall|k: int|
            0 <= k < arcs.len() ==> (#[trigger] arcs[k]).points@.len() >= 2 && arcs[k].start_node
                < nodes.len() && arcs[k].end_node < nodes.len() && nodes[arcs[k].start_node as int]
                == arcs[k].points@[0] && nodes[arcs[k].end_node as int] == arcs[k].points@.last(),
        forall|r: ArcRef| #[trigger]
            is_ref(arcs, r) && ref_region(arcs, r) == x ==> !used[ref_index(r)],
    ensures
        open_flow(arcs, used, x, v, m) == arcs_flow(
            arcs.take(m),
            x,
            nodes[v].x as int,
            nodes[v].y as int,
        ),
    decreases m,
{
    if m > 0 {
        lemma_open_flow_initial(arcs, nodes, used, x, v, m - 1);
        assert(arcs.take(m).drop_last() =~= arcs.take(m - 1));
        let a = arcs[m - 1];
        assert(arcs.take(m).last() == a);
        let fwd = ArcRef { arc: (m - 1) as u32, reversed: false };
        let rev = ArcRef { arc: (m - 1) as u32, reversed: true };
        assert(is_ref(arcs, fwd) && is_ref(arcs, rev));
        let i = nodes[v].x as int;
        let j = nodes[v].y as int;
        assert((nodes[a.start_node as int] == nodes[v]) == (a.start_node == v));
        assert((nodes[a.end_node as int] == nodes[v]) == (a.end_node == v));
        let c = one_if(a.left == x) - one_if(a.right == x);
        let e = one_if(a.points@[0].x == i && a.points@[0].y == j) - one_if(
            a.points@.last().x == i && a.points@.last().y == j,
        );
        assert(e == ends_differ(a, v));
        assert(c * e == arc_flow(a, x, i, j));
        assert(1 * e == e && 0 * e == 0 && (-1) * e == -e) by (nonlinear_arith);
    }
}

// ---- Chaining -----------------------------------------------------------

fn step_dir(p: GridPoint, q: GridPoint) -> (d: u32)
    ensures
        d == dir_between(p, q),
        d < 4,
{
    if q.x > p.x {
        0
    } else if q.y > p.y {
        1
    } else if q.x < p.x {
        2
    } else {
        3
    }
}

fn ref_start_node(arcs: &Vec<Arc<GridPoint>>, r: ArcRef) -> (v: u32)
    requires
        is_ref(arcs@, r),
    ensures
        v == ref_start(arcs@, r),
{
    if r.reversed {
        arcs[r.arc as usize].end_node
    } else {
        arcs[r.arc as usize].start_node
    }
}

fn ref_end_node(arcs: &Vec<Arc<GridPoint>>, r: ArcRef) -> (v: u32)
    requires
        is_ref(arcs@, r),
    ensures
        v == ref_end(arcs@, r),
{
    if r.reversed {
        arcs[r.arc as usize].start_node
    } else {
        arcs[r.arc as usize].end_node
    }
}

fn ref_side(arcs: &Vec<Arc<GridPoint>>, r: ArcRef) -> (x: u32)
    requires
        is_ref(arcs@, r),
    ensures
        x == ref_region(arcs@, r),
{
    if r.reversed {
        arcs[r.arc as usize].right
    } else {
        arcs[r.arc as usize].left
    }
}

fn ref_out_dir(arcs: &Vec<Arc<GridPoint>>, r: ArcRef) -> (d: u32)
    requires
        is_ref(arcs@, r),
        arcs@[r.arc as int].points@.len() >= 2,
    ensures
        d == ref_out(arcs@, r),
        d < 4,
{
    let p = &arcs[r.arc as usize].points;
    let n: usize = p.len();
    if r.reversed {
        step_dir(p[n - 1], p[n - 2])
    } else {
        step_dir(p[0], p[1])
    }
}

fn ref_in_dir(arcs: &Vec<Arc<GridPoint>>, r: ArcRef) -> (d: u32)
    requires
        is_ref(arcs@, r),
        arcs@[r.arc as int].points@.len() >= 2,
    ensures
        d == ref_in(arcs@, r),
        d < 4,
{
    let p = &arcs[r.arc as usize].points;
    let n: usize = p.len();
    if r.reversed {
        step_dir(p[1], p[0])
    } else {
        step_dir(p[n - 2], p[n - 1])
    }
}

fn turn_of(incoming: u32, outgoing: u32) -> (t: i32)
    requires
        incoming < 4,
        outgoing < 4,
    ensures
        t == turn(incoming as int, outgoing as int),
{
    let d: u32 = if outgoing >= incoming {
        outgoing - incoming
    } else {
        outgoing + 4 - incoming
    };
    if d == 3 {
        -1
    } else {
        d as i32
    }
}

fn index_of(r: ArcRef) -> (i: usize)
    requires
        2 * r.arc + 1 <= usize::MAX,
    ensures
        i == ref_index(r),
{
    if r.reversed {
        2 * r.arc as usize + 1
    } else {
        2 * r.arc as usize
    }
}

/// `out` lists the references among `arcs` that leave each node.
spec fn leaves(arcs: Seq<Arc<GridPoint>>, out: Seq<Vec<ArcRef>>, m: int) -> bool {
    &&& forall|v: int, k: int|
        0 <= v < out.len() && 0 <= k < out[v]@.len() ==> (#[trigger] out[v]@[k]).arc < m
            && ref_start(arcs, out[v]@[k]) == v
    &&& forall|c: ArcRef|
        #![trigger ref_start(arcs, c)]
        c.arc < m ==> out[ref_start(arcs, c) as int]@.contains(c)
    &&& forall|v: int, k: int, l: int|
        0 <= v < out.len() && 0 <= k < l < out[v]@.len() ==> ref_index(#[trigger] out[v]@[k])
            < ref_index(#[trigger] out[v]@[l])
}

/// Adding a reference after all others to list `s`.
proof fn lemma_leaves_push(
    s: int,
    old_out: Seq<Vec<ArcRef>>,
    new_out: Seq<Vec<ArcRef>>,
    c: ArcRef,
)
    requires
        0 <= s < old_out.len(),
        new_out.len() == old_out.len(),
        forall|v: int|
            0 <= v < old_out.len() && v != s ==> #[trigger] new_out[v]
                == old_out[v],
        new_out[s]@ == old_out[s]@.push(c),
        forall|v: int, k: int|
            0 <= v < old_out.len() && 0 <= k < old_out[v]@.len() ==> ref_index(
                #[trigger] old_out[v]@[k],
            ) < ref_index(c),
        forall|v: int, k: int, l: int|
            0 <= v < old_out.len() && 0 <= k < l < old_out[v]@.len() ==> ref_index(
                #[trigger] old_out[v]@[k],
            ) < ref_index(#[trigger] old_out[v]@[l]),
    ensures
        forall|v: int, k: int|
            0 <= v < new_out.len() && 0 <= k < new_out[v]@.len() ==> (#[trigger] new_out[v]@[k]) == c
                && v == s || (k < old_out[v]@.len() && new_out[v]@[k]
                == old_out[v]@[k]),
        forall|v: int, b: ArcRef|
            0 <= v < old_out.len() && #[trigger] old_out[v]@.contains(b) ==> new_out[v]@.contains(b),
        new_out[s]@.contains(c),
        forall|v: int, k: int, l: int|
            0 <= v < new_out.len() && 0 <= k < l < new_out[v]@.len() ==> ref_index(
                #[trigger] new_out[v]@[k],
            ) < ref_index(#[trigger] new_out[v]@[l]),
{
    assert(new_out[s]@[old_out[s]@.len() as int] == c);
    assert forall|v: int, b: ArcRef|
        0 <= v < old_out.len() && #[trigger] old_out[v]@.contains(b) implies new_out[v]@.contains(
        b,
    ) by {
        let k = choose|k: int| 0 <= k < old_out[v]@.len() && old_out[v]@[k] == b;
        assert(new_out[v]@[k] == b);
    }
}

/// For each node, the directed references that leave it, in order.
fn leaving_refs(arcs: &Vec<Arc<GridPoint>>, n: usize) -> (out: Vec<Vec<ArcRef>>)
    requires
        refs_wf(arcs@, n as int),
    ensures
        out@.len() == n,
        leaves(arcs@, out@, arcs@.len() as int),
{
    let mut out: Vec<Vec<ArcRef>> = Vec::new();
    let mut v: usize = 0;
    while v < n
        invariant
            v <= n,
            out@.len() == v,
            forall|u: int| 0 <= u < v ==> (#[trigger] out@[u])@.len() == 0,
        decreases n - v,
    {
        out.push(Vec::new());
        v = v + 1;
    }
    let mut a: usize = 0;
    while a < arcs.len()
        invariant
            a <= arcs@.len(),
            refs_wf(arcs@, n as int),
            out@.len() == n,
            leaves(arcs@, out@, a as int),
        decreases arcs@.len() - a,
    {
        let ghost out0 = out@;
        let fwd = ArcRef { arc: a as u32, reversed: false };
        let s: usize = arcs[a].start_node as usize;
        out[s].push(fwd);
        let ghost out1 = out@;
        proof {
            assert(ref_start(arcs@, fwd) == s);
            lemma_leaves_push(s as int, out0, out1, fwd);
        }
        let rev = ArcRef { arc: a as u32, reversed: true };
        let e: usize = arcs[a].end_node as usize;
        out[e].push(rev);
        proof {
            assert(ref_start(arcs@, rev) == e);
            assert forall|v: int, k: int|
                0 <= v < out1.len() && 0 <= k < out1[v]@.len() implies ref_index(
                #[trigger] out1[v]@[k],
            ) < ref_index(rev) by {
                if k < out0[v]@.len() && out1[v]@[k] == out0[v]@[k] {
                    assert(out0[v]@[k].arc < a);
                }
            }
            lemma_leaves_push(e as int, out1, out@, rev);
            assert forall|c: ArcRef|
                #![trigger ref_start(arcs@, c)]
                c.arc < a + 1 implies out@[ref_start(arcs@, c) as int]@.contains(c) by {
                let v = ref_start(arcs@, c) as int;
                assert(arcs@[c.arc as int].points@.len() >= 2);
                if c.arc < a {
                    assert(out0[v]@.contains(c));
                    assert(out1[v]@.contains(c));
                } else if c.reversed {
                    assert(c == rev);
                } else {
                    assert(c == fwd);
                    assert(out1[v]@.contains(c));
                }
            }
        }
        a = a + 1;
    }
    out
}

/// How many entries are false.
spec fn unused(used: Seq<bool>) -> nat
    decreases used.len(),
{
    if used.len() == 0 {
        0
    } else {
        unused(used.drop_last()) + if used.last() {
            0nat
        } else {
            1nat
        }
    }
}

proof fn lemma_unused_update(used: Seq<bool>, i: int)
    requires
        0 <= i < used.len(),
        !used[i],
    ensures
        unused(used.update(i, true)) == unused(used) - 1,
    decreases used.len(),
{
    let next = used.update(i, true);
    if i == used.len() - 1 {
        assert(next.drop_last() =~= used.drop_last());
    } else {
        assert(next.drop_last() =~= used.drop_last().update(i, true));
        lemma_unused_update(used.drop_last(), i);
    }
}

/// Of the references that bound `x`, exactly those in `loops` or `part` are
/// marked as used.
spec fn marked(
    arcs: Seq<Arc<GridPoint>>,
    used: Seq<bool>,
    x: u32,
    loops: Seq<Seq<ArcRef>>,
    part: Seq<ArcRef>,
) -> bool {
    forall|c: ArcRef|
        #[trigger] is_ref(arcs, c) && ref_region(arcs, c) == x ==> (used[ref_index(c)] <==> (listed(
            loops,
            c,
        ) || part.contains(c)))
}

/// References that bound other regions keep their marks.
spec fn others_kept(arcs: Seq<Arc<GridPoint>>, old_used: Seq<bool>, used: Seq<bool>, x: u32) -> bool {
    forall|c: ArcRef|
        #[trigger] is_ref(arcs, c) && ref_region(arcs, c) != x ==> used[ref_index(c)]
            == old_used[ref_index(c)]
}

spec fn no_flow(arcs: Seq<Arc<GridPoint>>, used: Seq<bool>, x: u32, n: int) -> bool {
    forall|v: int| 0 <= v < n ==> #[trigger] open_flow(arcs, used, x, v, arcs.len() as int) == 0
}

/// What is known of a ring that is being chained.
spec fn partial_ring(
    arcs: Seq<Arc<GridPoint>>,
    x: u32,
    loops: Seq<Seq<ArcRef>>,
    ring: Seq<ArcRef>,
) -> bool {
    &&& ring.len() > 0
    &&& forall|k: int, l: int|
        0 <= k && l == k + 1 && l < ring.len() ==> ref_end(arcs, #[trigger] ring[k]) == ref_start(
            arcs,
            #[trigger] ring[l],
        )
    &&& forall|k: int|
        0 <= k < ring.len() ==> is_ref(arcs, #[trigger] ring[k]) && ref_region(arcs, ring[k]) == x
            && !listed(loops, ring[k])
    &&& forall|k: int, l: int|
        0 <= k < ring.len() && 0 <= l < ring.len() && #[trigger] ring[k] == #[trigger] ring[l]
            ==> k == l
    &&& forall|k: int|
        0 <= k < ring.len() - 1 ==> ref_end(arcs, #[trigger] ring[k]) != ref_start(arcs, ring[0])
    &&& forall|k: int, c: ArcRef|
        0 <= k < ring.len() - 1 && #[trigger] still_open(
            arcs,
            x,
            loops,
            ring.take(k + 1),
            ref_end(arcs, ring[k]),
            c,
        ) ==> preferred(arcs, ring[k], ring[k + 1], c)
}

proof fn lemma_partial_push(
    arcs: Seq<Arc<GridPoint>>,
    x: u32,
    loops: Seq<Seq<ArcRef>>,
    ring: Seq<ArcRef>,
    r: ArcRef,
)
    requires
        partial_ring(arcs, x, loops, ring),
        still_open(arcs, x, loops, ring, ref_end(arcs, ring.last()), r),
        ref_end(arcs, ring.last()) != ref_start(arcs, ring[0]),
        forall|c: ArcRef| #[trigger]
            still_open(arcs, x, loops, ring, ref_end(arcs, ring.last()), c) ==> preferred(
                arcs,
                ring.last(),
                r,
                c,
            ),
    ensures
        partial_ring(arcs, x, loops, ring.push(r)),
{
    let next = ring.push(r);
    assert forall|k: int, l: int|
        0 <= k < next.len() && 0 <= l < next.len() && #[trigger] next[k] == #[trigger] next[l]
        implies k == l by {
        if k < ring.len() && l == ring.len() {
            assert(ring[k] == r);
            assert(ring.contains(r));
        }
        if l < ring.len() && k == ring.len() {
            assert(ring[l] == r);
            assert(ring.contains(r));
        }
    }
    assert forall|k: int, c: ArcRef|
        0 <= k < next.len() - 1 && #[trigger] still_open(
            arcs,
            x,
            loops,
            next.take(k + 1),
            ref_end(arcs, next[k]),
            c,
        ) implies preferred(arcs, next[k], next[k + 1], c) by {
        assert(next.take(k + 1) =~= ring.take(k + 1));
        if k < ring.len() - 1 {
            assert(still_open(arcs, x, loops, ring.take(k + 1), ref_end(arcs, ring[k]), c));
        } else {
            assert(ring.take(k + 1) =~= ring);
            assert(still_open(arcs, x, loops, ring, ref_end(arcs, ring.last()), c));
        }
    }
}

proof fn lemma_ref_index_injective(a: ArcRef, b: ArcRef)
    requires
        ref_index(a) == ref_index(b),
    ensures
        a == b,
{
}

/// Of the open references that leave the end of `from`, the one to take.
fn best_turn(
    arcs: &Vec<Arc<GridPoint>>,
    leaving: &Vec<Vec<ArcRef>>,
    used: &Vec<bool>,
    x: u32,
    from: ArcRef,
    Ghost(loops): Ghost<Seq<Seq<ArcRef>>>,
    Ghost(ring): Ghost<Seq<ArcRef>>,
) -> (best: ArcRef)
    requires
        refs_wf(arcs@, leaving@.len() as int),
        leaves(arcs@, leaving@, arcs@.len() as int),
        used@.len() == 2 * arcs@.len(),
        is_ref(arcs@, from),
        marked(arcs@, used@, x, loops, ring),
        open_flow(arcs@, used@, x, ref_end(arcs@, from) as int, arcs@.len() as int) > 0,
    ensures
        still_open(arcs@, x, loops, ring, ref_end(arcs@, from), best),
        forall|c: ArcRef| #[trigger]
            still_open(arcs@, x, loops, ring, ref_end(arcs@, from), c) ==> preferred(
                arcs@,
                from,
                best,
                c,
            ),
{
    assert(arcs@[from.arc as int].points@.len() >= 2);
    let v: usize = ref_end_node(arcs, from) as usize;
    let incoming: u32 = ref_in_dir(arcs, from);
    let mut best: ArcRef = from;
    let mut best_turn: i32 = 3;
    let mut k: usize = 0;
    while k < leaving[v].len()
        invariant
            k <= leaving@[v as int]@.len(),
            v < leaving@.len(),
            v == ref_end(arcs@, from),
            incoming == ref_in(arcs@, from),
            incoming < 4,
            refs_wf(arcs@, leaving@.len() as int),
            leaves(arcs@, leaving@, arcs@.len() as int),
            used@.len() == 2 * arcs@.len(),
            marked(arcs@, used@, x, loops, ring),
            best_turn <= 3,
            best_turn < 3 ==> still_open(arcs@, x, loops, ring, v as u32, best) && best_turn == turn(
                incoming as int,
                ref_out(arcs@, best),
            ) && (exists|l: int| 0 <= l < k && leaving@[v as int]@[l] == best),
            forall|l: int|
                0 <= l < k && still_open(
                    arcs@,
                    x,
                    loops,
                    ring,
                    v as u32,
                    #[trigger] leaving@[v as int]@[l],
                ) ==> best_turn < 3 && preferred(arcs@, from, best, leaving@[v as int]@[l]),
        decreases leaving@[v as int]@.len() - k,
    {
        let c: ArcRef = leaving[v][k];
        assert(leaving@[v as int]@[k as int].arc < arcs@.len());
        assert(arcs@[c.arc as int].points@.len() >= 2);
        assert(is_ref(arcs@, c));
        if ref_side(arcs, c) == x && !used[index_of(c)] {
            let t: i32 = turn_of(incoming, ref_out_dir(arcs, c));
            assert(still_open(arcs@, x, loops, ring, v as u32, c));
            if t < best_turn {
                best = c;
                best_turn = t;
            }
        }
        k = k + 1;
    }
    proof {
        let r = lemma_open_flow_positive(arcs@, used@, x, v as int, arcs@.len() as int);
        assert(still_open(arcs@, x, loops, ring, v as u32, r));
        assert forall|c: ArcRef| #[trigger]
            still_open(arcs@, x, loops, ring, v as u32, c) implies best_turn < 3 && preferred(
            arcs@,
            from,
            best,
            c,
        ) by {
            assert(ref_start(arcs@, c) == v);
            assert(leaving@[v as int]@.contains(c));
            let l = choose|l: int|
                0 <= l < leaving@[v as int]@.len() && leaving@[v as int]@[l] == c;
            assert(still_open(arcs@, x, loops, ring, v as u32, leaving@[v as int]@[l]));
        }
    }
    best
}

/// Mark `r`, which bounds `x` and ends the chain so far, as used.
proof fn lemma_mark(
    arcs: Seq<Arc<GridPoint>>,
    used: Seq<bool>,
    x: u32,
    loops: Seq<Seq<ArcRef>>,
    ring: Seq<ArcRef>,
    r: ArcRef,
    n: int,
)
    requires
        refs_wf(arcs, n),
        used.len() == 2 * arcs.len(),
        is_ref(arcs, r),
        ref_region(arcs, r) == x,
        !used[ref_index(r)],
        marked(arcs, used, x, loops, ring),
    ensures
        marked(arcs, used.update(ref_index(r), true), x, loops, ring.push(r)),
        others_kept(arcs, used, used.update(ref_index(r), true), x),
        unused(used.update(ref_index(r), true)) == unused(used) - 1,
        forall|v: int|
            0 <= v < n ==> #[trigger] open_flow(
                arcs,
                used.update(ref_index(r), true),
                x,
                v,
                arcs.len() as int,
            ) == open_flow(arcs, used, x, v, arcs.len() as int) - one_if(ref_start(arcs, r) == v)
                + one_if(ref_end(arcs, r) == v),
{
    let next = used.update(ref_index(r), true);
    lemma_unused_update(used, ref_index(r));
    assert forall|v: int| 0 <= v < n implies #[trigger] open_flow(
        arcs,
        next,
        x,
        v,
        arcs.len() as int,
    ) == open_flow(arcs, used, x, v, arcs.len() as int) - one_if(ref_start(arcs, r) == v) + one_if(
        ref_end(arcs, r) == v,
    ) by {
        lemma_open_flow_mark(arcs, used, x, v, r, arcs.len() as int);
    }
    assert forall|c: ArcRef| #[trigger] is_ref(arcs, c) && ref_region(arcs, c) == x implies (
    next[ref_index(c)] <==> (listed(loops, c) || ring.push(r).contains(c))) by {
        if c == r {
            assert(ring.push(r)[ring.len() as int] == r);
        } else {
            if ref_index(c) == ref_index(r) {
                lemma_ref_index_injective(c, r);
            }
            if ring.contains(c) {
                let k = choose|k: int| 0 <= k < ring.len() && ring[k] == c;
                assert(ring.push(r)[k] == c);
            }
            if ring.push(r).contains(c) {
                let k = choose|k: int| 0 <= k < ring.push(r).len() && ring.push(r)[k] == c;
                assert(ring[k] == c);
            }
        }
    }
    assert forall|c: ArcRef| #[trigger] is_ref(arcs, c) && ref_region(arcs, c) != x implies next[
    ref_index(c)] == used[ref_index(c)] by {
        if ref_index(c) == ref_index(r) {
            lemma_ref_index_injective(c, r);
        }
    }
}

/// Chain the ring that starts at `seed`.
fn trace_ring(
    arcs: &Vec<Arc<GridPoint>>,
    leaving: &Vec<Vec<ArcRef>>,
    used: &mut Vec<bool>,
    x: u32,
    seed: ArcRef,
    Ghost(loops): Ghost<Seq<Seq<ArcRef>>>,
) -> (ring: Vec<ArcRef>)
    requires
        refs_wf(arcs@, leaving@.len() as int),
        leaves(arcs@, leaving@, arcs@.len() as int),
        old(used)@.len() == 2 * arcs@.len(),
        is_ref(arcs@, seed),
        ref_region(arcs@, seed) == x,
        !old(used)@[ref_index(seed)],
        marked(arcs@, old(used)@, x, loops, Seq::empty()),
        no_flow(arcs@, old(used)@, x, leaving@.len() as int),
        forall|c: ArcRef| #[trigger]
            is_ref(arcs@, c) && ref_region(arcs@, c) == x && !listed(loops, c) ==> ref_index(seed)
                <= ref_index(c),
    ensures
        ring_ok(arcs@, x, loops, ring@),
        ring@[0] == seed,
        final(used)@.len() == 2 * arcs@.len(),
        marked(arcs@, final(used)@, x, loops, ring@),
        others_kept(arcs@, old(used)@, final(used)@, x),
        no_flow(arcs@, final(used)@, x, leaving@.len() as int),
{
    let ghost n = leaving@.len() as int;
    let ghost used0 = used@;
    let mut ring: Vec<ArcRef> = Vec::new();
    let start: u32 = ref_start_node(arcs, seed);
    proof {
        lemma_mark(arcs@, used@, x, loops, ring@, seed, n);
    }
    ring.push(seed);
    used.set(index_of(seed), true);
    let mut cur: ArcRef = seed;
    let mut end: u32 = ref_end_node(arcs, seed);
    while end != start
        invariant
            refs_wf(arcs@, n),
            n == leaving@.len(),
            leaves(arcs@, leaving@, arcs@.len() as int),
            used@.len() == 2 * arcs@.len(),
            partial_ring(arcs@, x, loops, ring@),
            ring@[0] == seed,
            ring@.last() == cur,
            is_ref(arcs@, seed),
            start == ref_start(arcs@, seed),
            end == ref_end(arcs@, cur),
            marked(arcs@, used@, x, loops, ring@),
            others_kept(arcs@, used0, used@, x),
            forall|v: int|
                0 <= v < n ==> #[trigger] open_flow(arcs@, used@, x, v, arcs@.len() as int)
                    == one_if(end == v) - one_if(start == v),
        decreases unused(used@),
    {
        assert(is_ref(arcs@, cur)) by {
            assert(is_ref(arcs@, ring@[ring@.len() - 1]));
        }
        assert(end < n) by {
            assert(arcs@[cur.arc as int].points@.len() >= 2);
        }
        assert(open_flow(arcs@, used@, x, end as int, arcs@.len() as int) == 1);
        let next: ArcRef = best_turn(arcs, leaving, used, x, cur, Ghost(loops), Ghost(ring@));
        proof {
            lemma_partial_push(arcs@, x, loops, ring@, next);
            lemma_mark(arcs@, used@, x, loops, ring@, next, n);
        }
        ring.push(next);
        used.set(index_of(next), true);
        cur = next;
        end = ref_end_node(arcs, next);
    }
    reveal(ring_ok);
    ring
}

/// `out` lists the references among the first `m` arcs that bound each region.
spec fn bounds(arcs: Seq<Arc<GridPoint>>, out: Seq<Vec<ArcRef>>, m: int) -> bool {
    &&& forall|v: int, k: int|
        0 <= v < out.len() && 0 <= k < out[v]@.len() ==> (#[trigger] out[v]@[k]).arc < m
            && ref_region(arcs, out[v]@[k]) == v
    &&& forall|c: ArcRef|
        #![trigger ref_region(arcs, c)]
        c.arc < m && ref_region(arcs, c) < out.len() ==> out[ref_region(
            arcs,
            c,
        ) as int]@.contains(c)
    &&& forall|v: int, k: int, l: int|
        0 <= v < out.len() && 0 <= k < l < out[v]@.len() ==> ref_index(#[trigger] out[v]@[k])
            < ref_index(#[trigger] out[v]@[l])
}

/// Directed references bounding each region, in order: forward where the region
/// lies on the left, reversed where it lies on the right.
fn bounding_refs(arcs: &Vec<Arc<GridPoint>>, region_count: usize) -> (out: Vec<Vec<ArcRef>>)
    requires
        arcs@.len() <= u32::MAX,
        2 * arcs@.len() <= usize::MAX,
    ensures
        out@.len() == region_count,
        bounds(arcs@, out@, arcs@.len() as int),
{
    let mut out: Vec<Vec<ArcRef>> = Vec::new();
    let mut v: usize = 0;
    while v < region_count
        invariant
            v <= region_count,
            out@.len() == v,
            forall|u: int| 0 <= u < v ==> (#[trigger] out@[u])@.len() == 0,
        decreases region_count - v,
    {
        out.push(Vec::new());
        v = v + 1;
    }
    let mut a: usize = 0;
    while a < arcs.len()
        invariant
            a <= arcs@.len(),
            arcs@.len() <= u32::MAX,
            2 * arcs@.len() <= usize::MAX,
            out@.len() == region_count,
            bounds(arcs@, out@, a as int),
        decreases arcs@.len() - a,
    {
        let ghost out0 = out@;
        let fwd = ArcRef { arc: a as u32, reversed: false };
        let s: usize = arcs[a].left as usize;
        if s < region_count {
            out[s].push(fwd);
            proof {
                lemma_leaves_push(s as int, out0, out@, fwd);
            }
        }
        let ghost out1 = out@;
        let rev = ArcRef { arc: a as u32, reversed: true };
        let e: usize = arcs[a].right as usize;
        proof {
            assert(ref_region(arcs@, fwd) == s);
            assert(ref_region(arcs@, rev) == e);
            assert forall|v: int, k: int|
                0 <= v < out1.len() && 0 <= k < out1[v]@.len() implies ref_index(
                #[trigger] out1[v]@[k],
            ) < ref_index(rev) by {
                if k < out0[v]@.len() && out1[v]@[k] == out0[v]@[k] {
                    assert(out0[v]@[k].arc < a);
                }
            }
        }
        if e < region_count {
            out[e].push(rev);
            proof {
                lemma_leaves_push(e as int, out1, out@, rev);
            }
        }
        proof {
            assert forall|c: ArcRef|
                #![trigger ref_region(arcs@, c)]
                c.arc < a + 1 && ref_region(arcs@, c) < out@.len() implies out@[ref_region(
                arcs@,
                c,
            ) as int]@.contains(c) by {
                let v = ref_region(arcs@, c) as int;
                if c.arc < a {
                    assert(out0[v]@.contains(c));
                    assert(out1[v]@.contains(c));
                } else if c.reversed {
                    assert(c == rev);
                } else {
                    assert(c == fwd);
                    assert(out1[v]@.contains(c));
                }
            }
        }
        a = a + 1;
    }
    out
}

// ---- Areas --------------------------------------------------------------

/// Twice the signed area of the triangle from the origin over `p` to `q`.
pub open spec fn cross(p: GridPoint, q: GridPoint) -> int {
    p.x * q.y - p.y * q.x
}

/// The shoelace sum along a polyline.
pub open spec fn line_cross(line: Seq<GridPoint>) -> int
    decreases line.len(),
{
    if line.len() < 2 {
        0
    } else {
        line_cross(line.drop_last()) + cross(line[line.len() - 2], line[line.len() - 1])
    }
}

/// Twice the signed area that a closed chain of references encloses: the
/// shoelace sum along them, a reversed arc counting backwards.
pub open spec fn ring_cross(arcs: Seq<Arc<GridPoint>>, ring: Seq<ArcRef>) -> int
    decreases ring.len(),
{
    if ring.len() == 0 {
        0
    } else {
        let r = ring.last();
        let c = line_cross(arcs[r.arc as int].points@);
        ring_cross(arcs, ring.drop_last()) + if r.reversed {
            -c
        } else {
            c
        }
    }
}

/// Every point of every arc lies in a `w` by `h` image, and no arc is longer
/// than the lattice has edges.
pub open spec fn arcs_small(arcs: Seq<Arc<GridPoint>>, w: int, h: int) -> bool {
    &&& 0 <= w
    &&& 0 <= h
    &&& 2 * ((w + 1) * (h + 1)) < u32::MAX
    &&& forall|a: int|
        0 <= a < arcs.len() ==> (#[trigger] arcs[a]).points@.len() <= u32::MAX && points_within(
            arcs[a].points@,
            w,
            h,
        )
}

pub open spec fn points_within(line: Seq<GridPoint>, w: int, h: int) -> bool {
    forall|k: int| 0 <= k < line.len() ==> (#[trigger] line[k]).x <= w && line[k].y <= h
}

proof fn lemma_cross_bound(p: GridPoint, q: GridPoint, w: int, h: int)
    requires
        p.x <= w,
        q.x <= w,
        p.y <= h,
        q.y <= h,
        2 * ((w + 1) * (h + 1)) < u32::MAX,
    ensures
        0 <= p.x * q.y < 0x8000_0000,
        0 <= p.y * q.x < 0x8000_0000,
{
    assert(0 <= p.x * q.y <= w * h) by (nonlinear_arith)
        requires
            0 <= p.x <= w,
            0 <= q.y <= h,
    ;
    assert(0 <= p.y * q.x <= w * h) by (nonlinear_arith)
        requires
            0 <= q.x <= w,
            0 <= p.y <= h,
    ;
    assert(w * h <= (w + 1) * (h + 1)) by (nonlinear_arith)
        requires
            0 <= w,
            0 <= h,
    ;
}

/// The shoelace sum along `line`.
fn line_area(line: &Vec<GridPoint>, Ghost(w): Ghost<int>, Ghost(h): Ghost<int>) -> (c: i128)
    requires
        points_within(line@, w, h),
        line@.len() <= u32::MAX,
        2 * ((w + 1) * (h + 1)) < u32::MAX,
    ensures
        c == line_cross(line@),
        -0x8000_0000_0000_0000 <= c <= 0x8000_0000_0000_0000,
{
    let mut c: i128 = 0;
    let mut k: usize = 1;
    if line.len() < 2 {
        return 0;
    }
    proof {
        assert(line_cross(line@.take(1)) == 0);
    }
    while k < line.len()
        invariant
            1 <= k <= line@.len(),
            points_within(line@, w, h),
            line@.len() <= u32::MAX,
            2 * ((w + 1) * (h + 1)) < u32::MAX,
            c == line_cross(line@.take(k as int)),
            -0x8000_0000 * (k - 1) <= c <= 0x8000_0000 * (k - 1),
        decreases line@.len() - k,
    {
        let p: GridPoint = line[k - 1];
        let q: GridPoint = line[k];
        proof {
            lemma_cross_bound(p, q, w, h);
            assert(line@.take(k + 1).drop_last() =~= line@.take(k as int));
        }
        c = c + (p.x as i128 * q.y as i128 - p.y as i128 * q.x as i128);
        k = k + 1;
    }
    assert(line@.take(k as int) =~= line@);
    c
}

/// A closed boundary of a region.
pub struct Ring {
    pub refs: Vec<ArcRef>,
    /// Twice the signed lattice area. Negative rings are outer boundaries,
    /// positive ones are holes, under the winding the tracer produces in y-down
    /// space.
    pub doubled_area: i128,
}

impl Ring {
    pub fn is_hole(&self) -> (b: bool)
        ensures
            b == (self.doubled_area > 0),
    {
        self.doubled_area > 0
    }
}

/// Twice the signed area that `refs` encloses.
fn ring_area(
    refs: &Vec<ArcRef>,
    arcs: &Vec<Arc<GridPoint>>,
    Ghost(w): Ghost<int>,
    Ghost(h): Ghost<int>,
) -> (c: i128)
    requires
        arcs_small(arcs@, w, h),
        forall|k: int| 0 <= k < refs@.len() ==> is_ref(arcs@, #[trigger] refs@[k]),
    ensures
        c == ring_cross(arcs@, refs@),
{
    let mut c: i128 = 0;
    let mut k: usize = 0;
    while k < refs.len()
        invariant
            k <= refs@.len(),
            arcs_small(arcs@, w, h),
            forall|k: int| 0 <= k < refs@.len() ==> is_ref(arcs@, #[trigger] refs@[k]),
            c == ring_cross(arcs@, refs@.take(k as int)),
            -0x8000_0000_0000_0000 * k <= c <= 0x8000_0000_0000_0000 * k,
        decreases refs@.len() - k,
    {
        let r: ArcRef = refs[k];
        assert(is_ref(arcs@, refs@[k as int]));
        assert(refs@.take(k + 1).drop_last() =~= refs@.take(k as int));
        assert(points_within(arcs@[r.arc as int].points@, w, h));
        let a: i128 = line_area(&arcs[r.arc as usize].points, Ghost(w), Ghost(h));
        c = if r.reversed {
            c - a
        } else {
            c + a
        };
        k = k + 1;
    }
    assert(refs@.take(k as int) =~= refs@);
    c
}

/// The references of each ring.
pub open spec fn loops_of(rings: Seq<Ring>) -> Seq<Seq<ArcRef>> {
    Seq::new(rings.len(), |q: int| rings[q].refs@)
}

/// `rings` are the boundary rings of region `x`, each with its area.
pub open spec fn region_rings_ok(
    arcs: Seq<Arc<GridPoint>>,
    x: u32,
    rings: Seq<Ring>,
) -> bool {
    &&& rings_ok(arcs, x, loops_of(rings))
    &&& forall|q: int|
        0 <= q < rings.len() ==> (#[trigger] rings[q]).doubled_area == ring_cross(
            arcs,
            rings[q].refs@,
        )
}

proof fn lemma_listed_push(loops: Seq<Seq<ArcRef>>, ring: Seq<ArcRef>, c: ArcRef)
    ensures
        listed(loops.push(ring), c) <==> (listed(loops, c) || ring.contains(c)),
{
    let more = loops.push(ring);
    if listed(loops, c) {
        let q = choose|q: int| 0 <= q < loops.len() && (#[trigger] loops[q]).contains(c);
        assert(more[q].contains(c));
    }
    if ring.contains(c) {
        assert(more[loops.len() as int].contains(c));
    }
    if listed(more, c) {
        let q = choose|q: int| 0 <= q < more.len() && (#[trigger] more[q]).contains(c);
        if q < loops.len() {
            assert(loops[q].contains(c));
        }
    }
}

/// The rings chained so far.
spec fn chained(arcs: Seq<Arc<GridPoint>>, x: u32, rings: Seq<Ring>) -> bool {
    &&& forall|q: int|
        0 <= q < rings.len() ==> ring_ok(
            arcs,
            x,
            loops_of(rings).take(q),
            #[trigger] loops_of(rings)[q],
        )
    &&& forall|q: int|
        0 <= q < rings.len() ==> (#[trigger] rings[q]).doubled_area == ring_cross(
            arcs,
            rings[q].refs@,
        )
}

proof fn lemma_chained_push(arcs: Seq<Arc<GridPoint>>, x: u32, rings: Seq<Ring>, ring: Ring)
    requires
        chained(arcs, x, rings),
        ring_ok(arcs, x, loops_of(rings), ring.refs@),
        ring.doubled_area == ring_cross(arcs, ring.refs@),
    ensures
        chained(arcs, x, rings.push(ring)),
{
    let loops = loops_of(rings);
    let more = loops_of(rings.push(ring));
    assert(more =~= loops.push(ring.refs@));
    assert forall|q: int| 0 <= q < more.len() implies ring_ok(
        arcs,
        x,
        more.take(q),
        #[trigger] more[q],
    ) by {
        if q < loops.len() {
            assert(more.take(q) =~= loops.take(q));
            assert(ring_ok(arcs, x, loops.take(q), loops[q]));
        } else {
            assert(more.take(q) =~= loops);
        }
    }
}

proof fn lemma_ring_refs(
    arcs: Seq<Arc<GridPoint>>,
    x: u32,
    loops: Seq<Seq<ArcRef>>,
    ring: Seq<ArcRef>,
)
    requires
        ring_ok(arcs, x, loops, ring),
    ensures
        ring.len() > 0,
        forall|k: int| 0 <= k < ring.len() ==> is_ref(arcs, #[trigger] ring[k]),
{
    reveal(ring_ok);
}

/// Chain the references `refs`, all those that bound region `x`, into rings.
fn chain_refs(
    refs: &Vec<ArcRef>,
    arcs: &Vec<Arc<GridPoint>>,
    leaving: &Vec<Vec<ArcRef>>,
    used: &mut Vec<bool>,
    x: u32,
    Ghost(w): Ghost<int>,
    Ghost(h): Ghost<int>,
) -> (rings: Vec<Ring>)
    requires
        refs_wf(arcs@, leaving@.len() as int),
        arcs_small(arcs@, w, h),
        leaves(arcs@, leaving@, arcs@.len() as int),
        old(used)@.len() == 2 * arcs@.len(),
        marked(arcs@, old(used)@, x, Seq::empty(), Seq::empty()),
        no_flow(arcs@, old(used)@, x, leaving@.len() as int),
        forall|k: int|
            0 <= k < refs@.len() ==> is_ref(arcs@, #[trigger] refs@[k]) && ref_region(
                arcs@,
                refs@[k],
            ) == x,
        forall|c: ArcRef| #[trigger]
            is_ref(arcs@, c) && ref_region(arcs@, c) == x ==> refs@.contains(c),
        forall|k: int, l: int|
            0 <= k < l < refs@.len() ==> ref_index(#[trigger] refs@[k]) < ref_index(
                #[trigger] refs@[l],
            ),
    ensures
        region_rings_ok(arcs@, x, rings@),
        final(used)@.len() == 2 * arcs@.len(),
        others_kept(arcs@, old(used)@, final(used)@, x),
{
    let ghost used0 = used@;
    let mut rings: Vec<Ring> = Vec::new();
    let mut s: usize = 0;
    proof {
        assert(loops_of(rings@) =~= Seq::<Seq<ArcRef>>::empty());
    }
    while s < refs.len()
        invariant
            s <= refs@.len(),
            refs_wf(arcs@, leaving@.len() as int),
            arcs_small(arcs@, w, h),
            leaves(arcs@, leaving@, arcs@.len() as int),
            used@.len() == 2 * arcs@.len(),
            marked(arcs@, used@, x, loops_of(rings@), Seq::empty()),
            no_flow(arcs@, used@, x, leaving@.len() as int),
            others_kept(arcs@, used0, used@, x),
            forall|k: int|
                0 <= k < refs@.len() ==> is_ref(arcs@, #[trigger] refs@[k]) && ref_region(
                    arcs@,
                    refs@[k],
                ) == x,
            forall|c: ArcRef| #[trigger]
                is_ref(arcs@, c) && ref_region(arcs@, c) == x ==> refs@.contains(c),
            forall|k: int, l: int|
                0 <= k < l < refs@.len() ==> ref_index(#[trigger] refs@[k]) < ref_index(
                    #[trigger] refs@[l],
                ),
            forall|k: int| 0 <= k < s ==> listed(loops_of(rings@), #[trigger] refs@[k]),
            chained(arcs@, x, rings@),
        decreases refs@.len() - s,
    {
        let seed: ArcRef = refs[s];
        assert(is_ref(arcs@, refs@[s as int]));
        let ghost loops = loops_of(rings@);
        if !used[index_of(seed)] {
            proof {
                assert forall|c: ArcRef| #[trigger]
                    is_ref(arcs@, c) && ref_region(arcs@, c) == x && !listed(loops, c) implies ref_index(
                    seed,
                ) <= ref_index(c) by {
                    let k = choose|k: int| 0 <= k < refs@.len() && refs@[k] == c;
                    if k < s {
                        assert(listed(loops, refs@[k]));
                    } else if k > s {
                        assert(ref_index(refs@[s as int]) < ref_index(refs@[k]));
                    }
                }
            }
            let ring_refs: Vec<ArcRef> = trace_ring(arcs, leaving, used, x, seed, Ghost(loops));
            proof {
                lemma_ring_refs(arcs@, x, loops, ring_refs@);
            }
            let doubled_area: i128 = ring_area(&ring_refs, arcs, Ghost(w), Ghost(h));
            let ghost before = rings@;
            rings.push(Ring { refs: ring_refs, doubled_area });
            proof {
                let more = loops_of(rings@);
                assert(more =~= loops.push(ring_refs@));
                assert forall|c: ArcRef| #[trigger]
                    is_ref(arcs@, c) && ref_region(arcs@, c) == x implies (used@[ref_index(c)] <==> (
                listed(more, c) || Seq::<ArcRef>::empty().contains(c))) by {
                    lemma_listed_push(loops, ring_refs@, c);
                }
                assert forall|k: int| 0 <= k < s + 1 implies listed(more, #[trigger] refs@[k]) by {
                    lemma_listed_push(loops, ring_refs@, refs@[k]);
                    if k == s {
                        assert(ring_refs@[0] == seed);
                        assert(ring_refs@.contains(seed));
                    }
                }
                lemma_chained_push(arcs@, x, before, rings@[before.len() as int]);
                assert(before.push(rings@[before.len() as int]) =~= rings@);
            }
        } else {
            assert(listed(loops, seed));
        }
        s = s + 1;
    }
    proof {
        assert forall|c: ArcRef| #[trigger]
            is_ref(arcs@, c) && ref_region(arcs@, c) == x implies listed(loops_of(rings@), c) by {
            let k = choose|k: int| 0 <= k < refs@.len() && refs@[k] == c;
            assert(listed(loops_of(rings@), refs@[k]));
        }
    }
    rings
}

/// Chain each region's directed arcs into closed rings.
pub(crate) fn assemble_rings(
    arcs: &Vec<Arc<GridPoint>>,
    nodes: &Vec<GridPoint>,
    region_count: usize,
    Ghost(g): Ghost<RegionGrid>,
) -> (out: Vec<Vec<Ring>>)
    requires
        arcs_ok(g, nodes@, arcs@),
        balanced(g, arcs@),
        arcs_small(arcs@, g.w, g.h),
        arcs@.len() <= u32::MAX,
        2 * arcs@.len() <= usize::MAX,
        region_count < u32::MAX,
        forall|k: int|
            0 <= k < nodes@.len() ==> in_lattice(
                g,
                (#[trigger] nodes@[k]).x as int,
                nodes@[k].y as int,
            ),
    ensures
        out@.len() == region_count,
        forall|x: int|
            0 <= x < region_count ==> region_rings_ok(arcs@, x as u32, (#[trigger] out@[x])@),
{
    let ghost n = nodes@.len() as int;
    proof {
        assert forall|a: int| 0 <= a < arcs@.len() implies (#[trigger] arcs@[a]).points@.len() >= 2
            && arcs@[a].start_node < n && arcs@[a].end_node < n by {
            assert(arc_ok(g, nodes@, arcs@[a]));
        }
    }
    let leaving: Vec<Vec<ArcRef>> = leaving_refs(arcs, nodes.len());
    let by_region: Vec<Vec<ArcRef>> = bounding_refs(arcs, region_count);
    let mut used: Vec<bool> = Vec::new();
    let mut k: usize = 0;
    while k < 2 * arcs.len()
        invariant
            k <= 2 * arcs@.len(),
            arcs@.len() <= u32::MAX,
            2 * arcs@.len() <= usize::MAX,
            used@.len() == k,
            forall|i: int| 0 <= i < k ==> !#[trigger] used@[i],
        decreases 2 * arcs@.len() - k,
    {
        used.push(false);
        k = k + 1;
    }
    let mut out: Vec<Vec<Ring>> = Vec::new();
    let mut x: usize = 0;
    while x < region_count
        invariant
            x <= region_count,
            n == nodes@.len(),
            n == leaving@.len(),
            region_count < u32::MAX,
            out@.len() == x,
            used@.len() == 2 * arcs@.len(),
            arcs_ok(g, nodes@, arcs@),
            balanced(g, arcs@),
            arcs_small(arcs@, g.w, g.h),
            refs_wf(arcs@, n),
            leaves(arcs@, leaving@, arcs@.len() as int),
            by_region@.len() == region_count,
            bounds(arcs@, by_region@, arcs@.len() as int),
            forall|k: int|
                0 <= k < nodes@.len() ==> in_lattice(
                    g,
                    (#[trigger] nodes@[k]).x as int,
                    nodes@[k].y as int,
                ),
            forall|c: ArcRef| #[trigger]
                is_ref(arcs@, c) && ref_region(arcs@, c) >= x ==> !used@[ref_index(c)],
            forall|y: int|
                0 <= y < x ==> region_rings_ok(arcs@, y as u32, (#[trigger] out@[y])@),
        decreases region_count - x,
    {
        let ghost used0 = used@;
        proof {
            let refs = by_region@[x as int]@;
            assert forall|v: int| 0 <= v < n implies #[trigger] open_flow(
                arcs@,
                used@,
                x as u32,
                v,
                arcs@.len() as int,
            ) == 0 by {
                assert forall|k: int| 0 <= k < arcs@.len() implies (#[trigger] arcs@[k]).points@.len()
                    >= 2 && arcs@[k].start_node < nodes@.len() && arcs@[k].end_node < nodes@.len()
                    && nodes@[arcs@[k].start_node as int] == arcs@[k].points@[0]
                    && nodes@[arcs@[k].end_node as int] == arcs@[k].points@.last() by {
                    assert(arc_ok(g, nodes@, arcs@[k]));
                }
                lemma_open_flow_initial(
                    arcs@,
                    nodes@,
                    used@,
                    x as u32,
                    v,
                    arcs@.len() as int,
                );
                assert(arcs@.take(arcs@.len() as int) =~= arcs@);
                assert(in_lattice(g, nodes@[v].x as int, nodes@[v].y as int));
                assert(arcs_flow(arcs@, x as u32, nodes@[v].x as int, nodes@[v].y as int) == 0);
            }
            assert forall|k: int| 0 <= k < refs.len() implies is_ref(arcs@, #[trigger] refs[k])
                && ref_region(arcs@, refs[k]) == x by {
                assert(by_region@[x as int]@[k].arc < arcs@.len());
            }
            assert forall|c: ArcRef| #[trigger]
                is_ref(arcs@, c) && ref_region(arcs@, c) == x implies refs.contains(c) by {
            }
            assert forall|k: int, l: int| 0 <= k < l < refs.len() implies ref_index(
                #[trigger] refs[k],
            ) < ref_index(#[trigger] refs[l]) by {
                assert(ref_index(by_region@[x as int]@[k]) < ref_index(by_region@[x as int]@[l]));
            }
        }
        let rings: Vec<Ring> = chain_refs(
            &by_region[x],
            arcs,
            &leaving,
            &mut used,
            x as u32,
            Ghost(g.w),
            Ghost(g.h),
        );
        proof {
            assert forall|c: ArcRef| #[trigger]
                is_ref(arcs@, c) && ref_region(arcs@, c) >= x + 1 implies !used@[ref_index(c)] by {
                assert(!used0[ref_index(c)]);
            }
        }
        out.push(rings);
        x = x + 1;
    }
    out
}

// ---- Which way rings go -------------------------------------------------

/// A turn by its directions, with the y axis running down: on the right hand it is 1, on
/// the left hand -1, straight on 0 and back 2.
pub proof fn law_turns_are_told_by_their_hand(a: int, b: int)
    requires
        0 <= a < 4,
        0 <= b < 4,
    ensures
        ({
            let (ax, ay) = (step_x(0, a), step_y(0, a));
            let (bx, by) = (step_x(0, b), step_y(0, b));
            &&& turn(a, b) == 1 <==> ax * by - ay * bx == 1
            &&& turn(a, b) == -1 <==> ax * by - ay * bx == -1
            &&& turn(a, b) == 0 <==> ax == bx && ay == by
            &&& turn(a, b) == 2 <==> ax == -bx && ay == -by
            &&& ax * ax + ay * ay == 1
        }),
{
    let (ax, ay) = (step_x(0, a), step_y(0, a));
    let (bx, by) = (step_x(0, b), step_y(0, b));
    assert(a == 0 || a == 1 || a == 2 || a == 3);
    assert(b == 0 || b == 1 || b == 2 || b == 3);
    assert(ax * by == (if ax == 0 {
        0
    } else if ax == 1 {
        by
    } else {
        -by
    })) by (nonlinear_arith)
        requires
            ax == 0 || ax == 1 || ax == -1,
    ;
    assert(ay * bx == (if ay == 0 {
        0
    } else if ay == 1 {
        bx
    } else {
        -bx
    })) by (nonlinear_arith)
        requires
            ay == 0 || ay == 1 || ay == -1,
    ;
    assert(ax * ax == (if ax == 0 {
        0int
    } else {
        1
    })) by (nonlinear_arith)
        requires
            ax == 0 || ax == 1 || ax == -1,
    ;
    assert(ay * ay == (if ay == 0 {
        0int
    } else {
        1
    })) by (nonlinear_arith)
        requires
            ay == 0 || ay == 1 || ay == -1,
    ;
}

/// A ring keeps to the left: of the arcs that bound its region, leave the node it has come
/// to and were not gone along before, it takes one that no other lies further to the left
/// of, and of those the first. It begins with the first that was not gone along before.
pub proof fn law_rings_keep_to_the_left(
    arcs: Seq<Arc<GridPoint>>,
    x: u32,
    loops: Seq<Seq<ArcRef>>,
    ring: Seq<ArcRef>,
    k: int,
    c: ArcRef,
)
    requires
        ring_ok(arcs, x, loops, ring),
        0 <= k < ring.len() - 1,
        c.arc < arcs.len(),
        ref_region(arcs, c) == x,
        ref_start(arcs, c) == ref_end(arcs, ring[k]),
        !listed(loops, c),
        forall|l: int| 0 <= l <= k ==> #[trigger] ring[l] != c,
    ensures
        ({
            let come = ref_in(arcs, ring[k]);
            let taken = turn(come, ref_out(arcs, ring[k + 1]));
            let other = turn(come, ref_out(arcs, c));
            &&& taken <= other
            &&& taken == other ==> ring[k + 1].arc < c.arc || (ring[k + 1].arc == c.arc && (
            ring[k + 1].reversed ==> c.reversed))
        }),
        ring[0].arc <= c.arc,
{
    reveal(ring_ok);
    let part = ring.take(k + 1);
    assert(!part.contains(c)) by {
        if part.contains(c) {
            let l = choose|l: int| 0 <= l < part.len() && part[l] == c;
            assert(ring[l] == c);
        }
    }
    assert(is_ref(arcs, c));
    assert(ref_index(ring[0]) <= ref_index(c));
    assert(still_open(arcs, x, loops, part, ref_end(arcs, ring[k]), c));
    assert(preferred(arcs, ring[k], ring[k + 1], c));
    let taken = ring[k + 1];
    assert(ref_index(taken) <= ref_index(c) ==> taken.arc < c.arc || (taken.arc == c.arc && (
    taken.reversed ==> c.reversed)));
}

/// The region of a reference lies on the left of the arc, gone along in its direction, and
/// the reference runs from the node at which it is begun to the one at which it ends.
pub proof fn law_references_run_with_their_region_on_the_left(
    arcs: Seq<Arc<GridPoint>>,
    a: u32,
)
    requires
        a < arcs.len(),
    ensures
        ({
            let there = ArcRef { arc: a, reversed: false };
            let back = ArcRef { arc: a, reversed: true };
            let arc = arcs[a as int];
            &&& ref_region(arcs, there) == arc.left
            &&& ref_region(arcs, back) == arc.right
            &&& ref_start(arcs, there) == arc.start_node && ref_end(arcs, there) == arc.end_node
            &&& ref_start(arcs, back) == ref_end(arcs, there)
            &&& ref_end(arcs, back) == ref_start(arcs, there)
        }),
{
}

} // verus!
