//! What the rings of a region enclose is the region: its pixels, counted.
//!
//! Every lattice edge carries a share of a region's signed area. Summed over all
//! edges the shares add up to minus twice the pixel count, summed over the edges
//! that the region's rings run along they add up to the rings' areas, and every
//! other edge has no share.

use crate::components::count_of;
use crate::cracks::{
    arc_ok, crack, dir_between, edge_of, good_step, in_lattice, is_chain, is_dir, is_line_step,
    is_partition, left_of, line_edge, lines_of, on_some_line, one_if, right_of, Arc,
};
use crate::lattice::GridPoint;
use crate::rings::{
    cross, is_ref, line_cross, listed, loops_of, ref_region, region_rings_ok, ring_cross, ring_ok,
    rings_ok, ArcRef, Ring,
};
use crate::segment::{RegionGrid, OUTSIDE};
use crate::topology::{is_topology_of, Topology};
use vstd::prelude::*;

verus! {

/// Twice the signed area that the first `n` rings enclose.
pub open spec fn enclosed(rings: Seq<Ring>, n: int) -> int
    decreases n,
{
    if n <= 0 {
        0
    } else {
        enclosed(rings, n - 1) + rings[n - 1].doubled_area
    }
}

// ---- Sums ---------------------------------------------------------------

spec fn total<T>(s: Seq<T>, f: spec_fn(T) -> int) -> int
    decreases s.len(),
{
    if s.len() == 0 {
        0
    } else {
        total(s.drop_last(), f) + f(s.last())
    }
}

proof fn lemma_total_add<T>(a: Seq<T>, b: Seq<T>, f: spec_fn(T) -> int)
    ensures
        total(a + b, f) == total(a, f) + total(b, f),
    decreases b.len(),
{
    if b.len() == 0 {
        assert(a + b =~= a);
    } else {
        assert((a + b).drop_last() =~= a + b.drop_last());
        lemma_total_add(a, b.drop_last(), f);
    }
}

proof fn lemma_total_remove<T>(s: Seq<T>, p: int, f: spec_fn(T) -> int)
    requires
        0 <= p < s.len(),
    ensures
        total(s.remove(p), f) == total(s, f) - f(s[p]),
    decreases s.len(),
{
    if p == s.len() - 1 {
        assert(s.remove(p) =~= s.drop_last());
    } else {
        assert(s.remove(p).drop_last() =~= s.drop_last().remove(p));
        lemma_total_remove(s.drop_last(), p, f);
    }
}

spec fn distinct<T>(s: Seq<T>) -> bool {
    forall|i: int, j: int|
        0 <= i < s.len() && 0 <= j < s.len() && #[trigger] s[i] == #[trigger] s[j] ==> i == j
}

/// Two lists without repeats have the same total where one holds every element
/// of the other, and the rest count for nothing.
proof fn lemma_same_total<T>(few: Seq<T>, many: Seq<T>, f: spec_fn(T) -> int)
    requires
        distinct(few),
        distinct(many),
        forall|i: int| 0 <= i < few.len() ==> many.contains(#[trigger] few[i]),
        forall|i: int| 0 <= i < many.len() && f(#[trigger] many[i]) != 0 ==> few.contains(many[i]),
    ensures
        total(few, f) == total(many, f),
    decreases many.len(),
{
    if many.len() == 0 {
        if few.len() > 0 {
            assert(many.contains(few[0]));
        }
    } else {
        let e = many.last();
        let rest = many.drop_last();
        assert(distinct(rest)) by {
            assert forall|i: int, j: int|
                0 <= i < rest.len() && 0 <= j < rest.len() && #[trigger] rest[i]
                    == #[trigger] rest[j] implies i == j by {
                assert(many[i] == many[j]);
            }
        }
        if few.contains(e) {
            let p = choose|p: int| 0 <= p < few.len() && few[p] == e;
            let less = few.remove(p);
            lemma_total_remove(few, p, f);
            assert forall|i: int, j: int|
                0 <= i < less.len() && 0 <= j < less.len() && #[trigger] less[i]
                    == #[trigger] less[j] implies i == j by {
                let a = if i < p { i } else { i + 1 };
                let b = if j < p { j } else { j + 1 };
                assert(few[a] == few[b]);
            }
            assert forall|i: int| 0 <= i < less.len() implies rest.contains(#[trigger] less[i]) by {
                let a = if i < p { i } else { i + 1 };
                assert(less[i] == few[a]);
                let m = choose|m: int| 0 <= m < many.len() && many[m] == few[a];
                if m == many.len() - 1 {
                    assert(few[a] == few[p]);
                }
                assert(rest[m] == less[i]);
            }
            assert forall|i: int| 0 <= i < rest.len() && f(#[trigger] rest[i]) != 0 implies
                less.contains(rest[i]) by {
                assert(f(many[i]) != 0);
                let a = choose|a: int| 0 <= a < few.len() && few[a] == many[i];
                if a == p {
                    assert(many[i] == many[many.len() - 1]);
                }
                let k = if a < p { a } else { a - 1 };
                assert(less[k] == rest[i]);
            }
            lemma_same_total(less, rest, f);
        } else {
            assert(f(e) == 0) by {
                if f(many[many.len() - 1]) != 0 {
                    assert(few.contains(many[many.len() - 1]));
                }
            }
            assert forall|i: int| 0 <= i < few.len() implies rest.contains(#[trigger] few[i]) by {
                let m = choose|m: int| 0 <= m < many.len() && many[m] == few[i];
                if m == many.len() - 1 {
                    assert(few.contains(e));
                }
                assert(rest[m] == few[i]);
            }
            assert forall|i: int| 0 <= i < rest.len() && f(#[trigger] rest[i]) != 0 implies
                few.contains(rest[i]) by {
                assert(f(many[i]) != 0);
            }
            lemma_same_total(few, rest, f);
        }
    }
}

/// The lists one after the other.
spec fn flat<T>(s: Seq<Seq<T>>) -> Seq<T>
    decreases s.len(),
{
    if s.len() == 0 {
        Seq::empty()
    } else {
        flat(s.drop_last()) + s.last()
    }
}

spec fn in_some<T>(s: Seq<Seq<T>>, e: T) -> bool {
    exists|q: int| 0 <= q < s.len() && (#[trigger] s[q]).contains(e)
}

proof fn lemma_flat_contains<T>(s: Seq<Seq<T>>, e: T)
    ensures
        flat(s).contains(e) <==> in_some(s, e),
    decreases s.len(),
{
    if s.len() > 0 {
        let before = s.drop_last();
        lemma_flat_contains(before, e);
        if flat(s).contains(e) {
            let i = choose|i: int| 0 <= i < flat(s).len() && flat(s)[i] == e;
            if i < flat(before).len() {
                assert(flat(before)[i] == e);
                assert(flat(before).contains(e));
                let q = choose|q: int| 0 <= q < before.len() && (#[trigger] before[q]).contains(e);
                assert(s[q].contains(e));
            } else {
                assert(s.last()[i - flat(before).len()] == e);
                assert(s[s.len() - 1].contains(e));
            }
        }
        if in_some(s, e) {
            let q = choose|q: int| 0 <= q < s.len() && (#[trigger] s[q]).contains(e);
            if q < before.len() {
                assert(before[q].contains(e));
                let i = choose|i: int| 0 <= i < flat(before).len() && flat(before)[i] == e;
                assert(flat(s)[i] == e);
            } else {
                let i = choose|i: int| 0 <= i < s.last().len() && s.last()[i] == e;
                assert(flat(s)[flat(before).len() + i] == e);
            }
        }
    }
}

/// No two of the lists share an element, and none repeats one.
spec fn apart<T>(s: Seq<Seq<T>>) -> bool {
    forall|q: int, i: int, r: int, j: int|
        0 <= q < s.len() && 0 <= i < s[q].len() && 0 <= r < s.len() && 0 <= j < s[r].len()
            && #[trigger] s[q][i] == #[trigger] s[r][j] ==> q == r && i == j
}

proof fn lemma_flat_distinct<T>(s: Seq<Seq<T>>)
    requires
        apart(s),
    ensures
        distinct(flat(s)),
    decreases s.len(),
{
    if s.len() > 0 {
        let before = s.drop_last();
        assert forall|q: int, i: int, r: int, j: int|
            0 <= q < before.len() && 0 <= i < before[q].len() && 0 <= r < before.len() && 0 <= j
                < before[r].len() && #[trigger] before[q][i] == #[trigger] before[r][j] implies q
            == r && i == j by {
            assert(s[q][i] == s[r][j]);
        }
        lemma_flat_distinct(before);
        let n = flat(before).len();
        let last = s.len() - 1;
        assert forall|i: int, j: int|
            0 <= i < flat(s).len() && 0 <= j < flat(s).len() && #[trigger] flat(s)[i]
                == #[trigger] flat(s)[j] implies i == j by {
            if i < n && j < n {
                assert(flat(before)[i] == flat(before)[j]);
            } else if i >= n && j >= n {
                assert(s[last][i - n] == s[last][j - n]);
            } else {
                let a = if i < n { i } else { j };
                let b = if i < n { j } else { i };
                let e = flat(before)[a];
                assert(flat(before).contains(e));
                lemma_flat_contains(before, e);
                let q = choose|q: int| 0 <= q < before.len() && (#[trigger] before[q]).contains(e);
                let k = choose|k: int| 0 <= k < before[q].len() && before[q][k] == e;
                assert(s[q][k] == s[last][b - n]);
            }
        }
    }
}

// ---- Shares of the edges ------------------------------------------------

/// How much more of region `x` is on the left of an edge than on its right: the
/// edge runs east, or south where it is vertical.
spec fn lean(g: RegionGrid, x: u32, e: (int, int, int)) -> int {
    one_if(left_of(g, e.0, e.1, e.2) == x) - one_if(right_of(g, e.0, e.1, e.2) == x)
}

/// The shoelace term of an edge.
spec fn reach(e: (int, int, int)) -> int {
    if e.2 == 0 {
        -e.1
    } else {
        e.0
    }
}

/// The share of an edge in twice the signed area of region `x`.
spec fn share(g: RegionGrid, x: u32, e: (int, int, int)) -> int {
    lean(g, x, e) * reach(e)
}

/// A step along an edge adds the edge's share, whichever way it goes.
proof fn lemma_step(g: RegionGrid, x: u32, line: Seq<GridPoint>, k: int, l: u32, r: u32)
    requires
        0 <= k < line.len() - 1,
        good_step(g, line, k, l, r),
    ensures
        ({
            let p = line[k];
            let d = dir_between(p, line[k + 1]);
            (one_if(l == x) - one_if(r == x)) * cross(p, line[k + 1]) == share(
                g,
                x,
                edge_of(p.x as int, p.y as int, d),
            )
        }),
{
    let p = line[k];
    let q = line[k + 1];
    let d = dir_between(p, q);
    let i = p.x as int;
    let j = p.y as int;
    let e = edge_of(i, j, d);
    let lean_here = one_if(l == x) - one_if(r == x);
    if d == 0 {
        assert(cross(p, q) == -j) by (nonlinear_arith)
            requires
                cross(p, q) == p.x * q.y - p.y * q.x,
                q.x == p.x + 1,
                q.y == p.y,
                j == p.y,
        ;
    } else if d == 1 {
        assert(cross(p, q) == i) by (nonlinear_arith)
            requires
                cross(p, q) == p.x * q.y - p.y * q.x,
                q.x == p.x,
                q.y == p.y + 1,
                i == p.x,
        ;
    } else if d == 2 {
        assert(cross(p, q) == j) by (nonlinear_arith)
            requires
                cross(p, q) == p.x * q.y - p.y * q.x,
                q.x == p.x - 1,
                q.y == p.y,
                j == p.y,
        ;
        assert(left_of(g, i - 1, j, 0) == r && right_of(g, i - 1, j, 0) == l);
        assert(lean_here * j == (-lean_here) * (-j)) by (nonlinear_arith);
    } else {
        assert(cross(p, q) == -i) by (nonlinear_arith)
            requires
                cross(p, q) == p.x * q.y - p.y * q.x,
                q.x == p.x,
                q.y == p.y - 1,
                i == p.x,
        ;
        assert(left_of(g, i, j - 1, 1) == r && right_of(g, i, j - 1, 1) == l);
        assert(lean_here * (-i) == (-lean_here) * i) by (nonlinear_arith);
    }
}

/// The edges that a line runs along.
spec fn line_edges(lines: Seq<Seq<GridPoint>>, a: int) -> Seq<(int, int, int)> {
    Seq::new(
        if lines[a].len() < 1 {
            0
        } else {
            (lines[a].len() - 1) as nat
        },
        |k: int| line_edge(lines, a, k),
    )
}

spec fn edge_lists(lines: Seq<Seq<GridPoint>>) -> Seq<Seq<(int, int, int)>> {
    Seq::new(lines.len(), |a: int| line_edges(lines, a))
}

/// Along a chain the shoelace sum, counted for the region on its left and
/// against the one on its right, is the total share of its edges.
proof fn lemma_chain(
    g: RegionGrid,
    x: u32,
    lines: Seq<Seq<GridPoint>>,
    a: int,
    l: u32,
    r: u32,
    n: int,
)
    requires
        0 <= a < lines.len(),
        is_chain(g, lines[a], l, r),
        1 <= n <= lines[a].len(),
    ensures
        (one_if(l == x) - one_if(r == x)) * line_cross(lines[a].take(n)) == total(
            line_edges(lines, a).take(n - 1),
            |e: (int, int, int)| share(g, x, e),
        ),
    decreases n,
{
    let line = lines[a];
    let f = |e: (int, int, int)| share(g, x, e);
    let part = line.take(n);
    let edges = line_edges(lines, a).take(n - 1);
    let c = one_if(l == x) - one_if(r == x);
    if n == 1 {
        assert(line_cross(part) == 0);
        assert(total(edges, f) == 0);
        assert(c * 0 == 0);
    } else {
        lemma_chain(g, x, lines, a, l, r, n - 1);
        assert(part.drop_last() =~= line.take(n - 1));
        assert(edges.drop_last() =~= line_edges(lines, a).take(n - 2));
        assert(good_step(g, line, n - 2, l, r));
        lemma_step(g, x, line, n - 2, l, r);
        assert(edges.last() == line_edge(lines, a, n - 2));
        let before = line_cross(line.take(n - 1));
        let step = cross(line[n - 2], line[n - 1]);
        assert(c * (before + step) == c * before + c * step) by (nonlinear_arith);
    }
}

/// The shoelace sum of an arc, for the region on its left and against the one on
/// its right.
spec fn arc_part(arcs: Seq<Arc<GridPoint>>, x: u32, a: int) -> int {
    (one_if(arcs[a].left == x) - one_if(arcs[a].right == x)) * line_cross(arcs[a].points@)
}

spec fn arcs_part(arcs: Seq<Arc<GridPoint>>, x: u32, n: int) -> int
    decreases n,
{
    if n <= 0 {
        0
    } else {
        arcs_part(arcs, x, n - 1) + arc_part(arcs, x, n - 1)
    }
}

proof fn lemma_arcs_edges(
    g: RegionGrid,
    nodes: Seq<GridPoint>,
    arcs: Seq<Arc<GridPoint>>,
    x: u32,
    n: int,
)
    requires
        0 <= n <= arcs.len(),
        forall|a: int| 0 <= a < arcs.len() ==> arc_ok(g, nodes, #[trigger] arcs[a]),
    ensures
        arcs_part(arcs, x, n) == total(
            flat(edge_lists(lines_of(arcs)).take(n)),
            |e: (int, int, int)| share(g, x, e),
        ),
    decreases n,
{
    let lines = lines_of(arcs);
    let lists = edge_lists(lines);
    let f = |e: (int, int, int)| share(g, x, e);
    if n > 0 {
        lemma_arcs_edges(g, nodes, arcs, x, n - 1);
        let a = n - 1;
        assert(arc_ok(g, nodes, arcs[a]));
        let line = lines[a];
        lemma_chain(g, x, lines, a, arcs[a].left, arcs[a].right, line.len() as int);
        assert(line.take(line.len() as int) =~= line);
        assert(line_edges(lines, a).take(line.len() - 1) =~= line_edges(lines, a));
        assert(lists.take(n).drop_last() =~= lists.take(n - 1));
        assert(lists.take(n).last() == line_edges(lines, a));
        lemma_total_add(flat(lists.take(n - 1)), line_edges(lines, a), f);
    } else {
        assert(lists.take(0).len() == 0);
    }
}

// ---- From rings to arcs -------------------------------------------------

/// What a reference adds to the area of region `x`.
spec fn ref_part(arcs: Seq<Arc<GridPoint>>, x: u32, r: ArcRef) -> int {
    if ref_region(arcs, r) == x {
        if r.reversed {
            -line_cross(arcs[r.arc as int].points@)
        } else {
            line_cross(arcs[r.arc as int].points@)
        }
    } else {
        0
    }
}

/// Both references to each of the first `n` arcs.
spec fn all_refs(n: int) -> Seq<ArcRef>
    decreases n,
{
    if n <= 0 {
        Seq::empty()
    } else {
        all_refs(n - 1).push(ArcRef { arc: (n - 1) as u32, reversed: false }).push(
            ArcRef { arc: (n - 1) as u32, reversed: true },
        )
    }
}

proof fn lemma_all_refs(n: int)
    requires
        0 <= n <= u32::MAX,
    ensures
        all_refs(n).len() == 2 * n,
        forall|i: int|
            0 <= i < 2 * n ==> #[trigger] all_refs(n)[i] == (ArcRef {
                arc: (i / 2) as u32,
                reversed: i % 2 == 1,
            }),
    decreases n,
{
    if n > 0 {
        lemma_all_refs(n - 1);
        let before = all_refs(n - 1);
        assert forall|i: int| 0 <= i < 2 * n implies #[trigger] all_refs(n)[i] == (ArcRef {
            arc: (i / 2) as u32,
            reversed: i % 2 == 1,
        }) by {
            if i < 2 * (n - 1) {
                assert(all_refs(n)[i] == before[i]);
            }
        }
    }
}

proof fn lemma_refs_total(arcs: Seq<Arc<GridPoint>>, x: u32, n: int)
    requires
        0 <= n <= arcs.len(),
        arcs.len() <= u32::MAX,
    ensures
        total(all_refs(n), |r: ArcRef| ref_part(arcs, x, r)) == arcs_part(arcs, x, n),
    decreases n,
{
    let f = |r: ArcRef| ref_part(arcs, x, r);
    if n > 0 {
        lemma_refs_total(arcs, x, n - 1);
        let fwd = ArcRef { arc: (n - 1) as u32, reversed: false };
        let rev = ArcRef { arc: (n - 1) as u32, reversed: true };
        let one = all_refs(n - 1).push(fwd);
        assert(all_refs(n).drop_last() =~= one);
        assert(one.drop_last() =~= all_refs(n - 1));
        assert(total(one, f) == total(all_refs(n - 1), f) + f(fwd));
        let c = line_cross(arcs[n - 1].points@);
        let l = one_if(arcs[n - 1].left == x);
        let r = one_if(arcs[n - 1].right == x);
        assert(f(fwd) == l * c && f(rev) == -(r * c)) by (nonlinear_arith)
            requires
                f(fwd) == if arcs[n - 1].left == x { c } else { 0 },
                f(rev) == if arcs[n - 1].right == x { -c } else { 0 },
                l == if arcs[n - 1].left == x { 1int } else { 0int },
                r == if arcs[n - 1].right == x { 1int } else { 0int },
        ;
        assert((l - r) * c == l * c - r * c) by (nonlinear_arith);
    }
}

proof fn lemma_ring_total(arcs: Seq<Arc<GridPoint>>, x: u32, ring: Seq<ArcRef>)
    requires
        forall|k: int| 0 <= k < ring.len() ==> ref_region(arcs, #[trigger] ring[k]) == x,
    ensures
        ring_cross(arcs, ring) == total(ring, |r: ArcRef| ref_part(arcs, x, r)),
    decreases ring.len(),
{
    if ring.len() > 0 {
        let before = ring.drop_last();
        assert forall|k: int| 0 <= k < before.len() implies ref_region(arcs, #[trigger] before[k])
            == x by {
            assert(before[k] == ring[k]);
        }
        lemma_ring_total(arcs, x, before);
        assert(ref_region(arcs, ring[ring.len() - 1]) == x);
    }
}

/// A ring of region `x` repeats neither itself nor the rings before it.
proof fn lemma_fresh(arcs: Seq<Arc<GridPoint>>, x: u32, loops: Seq<Seq<ArcRef>>, ring: Seq<ArcRef>)
    requires
        ring_ok(arcs, x, loops, ring),
    ensures
        forall|k: int|
            0 <= k < ring.len() ==> is_ref(arcs, #[trigger] ring[k]) && ref_region(arcs, ring[k])
                == x && !listed(loops, ring[k]),
        distinct(ring),
{
    reveal(ring_ok);
}

proof fn lemma_enclosed(arcs: Seq<Arc<GridPoint>>, x: u32, rings: Seq<Ring>, n: int)
    requires
        region_rings_ok(arcs, x, rings),
        0 <= n <= rings.len(),
    ensures
        enclosed(rings, n) == total(
            flat(loops_of(rings).take(n)),
            |r: ArcRef| ref_part(arcs, x, r),
        ),
    decreases n,
{
    let loops = loops_of(rings);
    let f = |r: ArcRef| ref_part(arcs, x, r);
    if n > 0 {
        lemma_enclosed(arcs, x, rings, n - 1);
        let ring = loops[n - 1];
        assert(ring_ok(arcs, x, loops.take(n - 1), loops[n - 1]));
        lemma_fresh(arcs, x, loops.take(n - 1), ring);
        lemma_ring_total(arcs, x, ring);
        assert(loops.take(n).drop_last() =~= loops.take(n - 1));
        assert(loops.take(n).last() == ring);
        lemma_total_add(flat(loops.take(n - 1)), ring, f);
        assert(rings[n - 1].doubled_area == ring_cross(arcs, rings[n - 1].refs@));
    } else {
        assert(loops.take(0).len() == 0);
    }
}

proof fn lemma_loops_apart(arcs: Seq<Arc<GridPoint>>, x: u32, loops: Seq<Seq<ArcRef>>)
    requires
        rings_ok(arcs, x, loops),
    ensures
        apart(loops),
{
    assert forall|q: int, i: int, r: int, j: int|
        0 <= q < loops.len() && 0 <= i < loops[q].len() && 0 <= r < loops.len() && 0 <= j
            < loops[r].len() && #[trigger] loops[q][i] == #[trigger] loops[r][j] implies q == r && i
        == j by {
        assert(ring_ok(arcs, x, loops.take(q), loops[q]));
        assert(ring_ok(arcs, x, loops.take(r), loops[r]));
        lemma_fresh(arcs, x, loops.take(q), loops[q]);
        lemma_fresh(arcs, x, loops.take(r), loops[r]);
        if q < r {
            assert(loops.take(r)[q].contains(loops[r][j]));
            assert(listed(loops.take(r), loops[r][j]));
        }
        if r < q {
            assert(loops.take(q)[r].contains(loops[q][i]));
            assert(listed(loops.take(q), loops[q][i]));
        }
    }
}

proof fn lemma_listed_refs(arcs: Seq<Arc<GridPoint>>, x: u32, loops: Seq<Seq<ArcRef>>, c: ArcRef)
    requires
        rings_ok(arcs, x, loops),
    ensures
        flat(loops).contains(c) <==> is_ref(arcs, c) && ref_region(arcs, c) == x,
{
    lemma_flat_contains(loops, c);
    if in_some(loops, c) {
        let q = choose|q: int| 0 <= q < loops.len() && (#[trigger] loops[q]).contains(c);
        let k = choose|k: int| 0 <= k < loops[q].len() && loops[q][k] == c;
        assert(ring_ok(arcs, x, loops.take(q), loops[q]));
        lemma_fresh(arcs, x, loops.take(q), loops[q]);
        assert(is_ref(arcs, loops[q][k]));
    }
    if is_ref(arcs, c) && ref_region(arcs, c) == x {
        assert(listed(loops, c));
        let q = choose|q: int| 0 <= q < loops.len() && (#[trigger] loops[q]).contains(c);
        assert(loops[q].contains(c));
    }
}

/// The rings of a region enclose what its arcs contribute.
proof fn lemma_rings_arcs(arcs: Seq<Arc<GridPoint>>, x: u32, rings: Seq<Ring>)
    requires
        region_rings_ok(arcs, x, rings),
        arcs.len() <= u32::MAX,
    ensures
        enclosed(rings, rings.len() as int) == arcs_part(arcs, x, arcs.len() as int),
{
    let loops = loops_of(rings);
    let f = |r: ArcRef| ref_part(arcs, x, r);
    let few = flat(loops);
    let many = all_refs(arcs.len() as int);
    lemma_enclosed(arcs, x, rings, rings.len() as int);
    assert(loops.take(rings.len() as int) =~= loops);
    lemma_refs_total(arcs, x, arcs.len() as int);
    lemma_all_refs(arcs.len() as int);
    lemma_loops_apart(arcs, x, loops);
    lemma_flat_distinct(loops);
    assert(distinct(many)) by {
        assert forall|i: int, j: int|
            0 <= i < many.len() && 0 <= j < many.len() && #[trigger] many[i] == #[trigger] many[j]
                implies i == j by {
            assert(i / 2 == j / 2 && (i % 2 == 1) == (j % 2 == 1));
        }
    }
    assert forall|i: int| 0 <= i < few.len() implies many.contains(#[trigger] few[i]) by {
        let c = few[i];
        assert(few.contains(c));
        lemma_listed_refs(arcs, x, loops, c);
        let at = 2 * (c.arc as int) + one_if(c.reversed);
        assert(many[at] == c);
    }
    assert forall|i: int| 0 <= i < many.len() && f(#[trigger] many[i]) != 0 implies few.contains(
        many[i],
    ) by {
        let c = many[i];
        assert(is_ref(arcs, c) && ref_region(arcs, c) == x);
        lemma_listed_refs(arcs, x, loops, c);
    }
    lemma_same_total(few, many, f);
}

// ---- From edges to pixels -----------------------------------------------

/// Whether pixel `(i, j)` belongs to region `x`, as a number.
spec fn here(g: RegionGrid, x: u32, i: int, j: int) -> int {
    one_if(g.at(i, j) == x)
}

/// Pixels of region `x` among the first `n` of row `j`.
spec fn row_count(g: RegionGrid, x: u32, j: int, n: int) -> int
    decreases n,
{
    if n <= 0 {
        0
    } else {
        row_count(g, x, j, n - 1) + here(g, x, n - 1, j)
    }
}

/// Pixels of region `x` in the first `n` rows.
spec fn rows_count(g: RegionGrid, x: u32, n: int) -> int
    decreases n,
{
    if n <= 0 {
        0
    } else {
        rows_count(g, x, n - 1) + row_count(g, x, n - 1, g.w)
    }
}

/// The edges that leave the first `n` points of lattice row `j`, eastwards and
/// southwards.
spec fn row_edges(j: int, n: int) -> Seq<(int, int, int)>
    decreases n,
{
    if n <= 0 {
        Seq::empty()
    } else {
        row_edges(j, n - 1).push((n - 1, j, 0int)).push((n - 1, j, 1int))
    }
}

proof fn lemma_row_edges(j: int, n: int)
    requires
        0 <= n,
    ensures
        row_edges(j, n).len() == 2 * n,
        forall|k: int|
            0 <= k < 2 * n ==> #[trigger] row_edges(j, n)[k] == (k / 2, j, k % 2),
    decreases n,
{
    if n > 0 {
        lemma_row_edges(j, n - 1);
        assert forall|k: int| 0 <= k < 2 * n implies #[trigger] row_edges(j, n)[k] == (
            k / 2,
            j,
            k % 2,
        ) by {
            if k < 2 * (n - 1) {
                assert(row_edges(j, n)[k] == row_edges(j, n - 1)[k]);
            }
        }
    }
}

spec fn grid_lists(w: int, n: int) -> Seq<Seq<(int, int, int)>> {
    Seq::new(
        if n < 0 {
            0
        } else {
            n as nat
        },
        |j: int| row_edges(j, w + 1),
    )
}

/// The shares of the edges of one lattice row: those of its horizontal edges
/// telescope against the rows above and below, those of its vertical edges along
/// the row.
proof fn lemma_row_total(g: RegionGrid, x: u32, j: int, n: int)
    requires
        0 <= n,
        x != OUTSIDE,
    ensures
        total(row_edges(j, n), |e: (int, int, int)| share(g, x, e)) == -j * (row_count(
            g,
            x,
            j - 1,
            n,
        ) - row_count(g, x, j, n)) + n * here(g, x, n - 1, j) - row_count(g, x, j, n),
    decreases n,
{
    let f = |e: (int, int, int)| share(g, x, e);
    if n == 0 {
        assert(-j * (0int - 0int) == 0) by (nonlinear_arith);
        assert(0 * here(g, x, -1, j) == 0);
    } else {
        lemma_row_total(g, x, j, n - 1);
        let i = n - 1;
        let east = (i, j, 0int);
        let south = (i, j, 1int);
        let one = row_edges(j, n - 1).push(east);
        assert(row_edges(j, n).drop_last() =~= one);
        assert(one.drop_last() =~= row_edges(j, n - 1));
        assert(total(one, f) == total(row_edges(j, n - 1), f) + f(east));
        let up = here(g, x, i, j - 1);
        let me = here(g, x, i, j);
        let west = here(g, x, i - 1, j);
        assert(f(east) == (up - me) * (-j));
        assert(f(south) == (me - west) * i);
        let above = row_count(g, x, j - 1, n - 1);
        let mine = row_count(g, x, j, n - 1);
        assert(row_count(g, x, j - 1, n) == above + up);
        assert(row_count(g, x, j, n) == mine + me);
        assert(-j * (above - mine) + (up - me) * (-j) == -j * ((above + up) - (mine + me)))
            by (nonlinear_arith);
        assert(i * west - mine + (me - west) * i == (i + 1) * me - (mine + me))
            by (nonlinear_arith);
    }
}

proof fn lemma_outside(g: RegionGrid, x: u32, j: int, n: int)
    requires
        x != OUTSIDE,
        j < 0 || j >= g.h,
    ensures
        row_count(g, x, j, n) == 0,
    decreases n,
{
    reveal(RegionGrid::at);
    if n > 0 {
        lemma_outside(g, x, j, n - 1);
    }
}

/// The shares of the edges of the first `n` lattice rows.
proof fn lemma_grid_total(g: RegionGrid, x: u32, n: int)
    requires
        0 <= n,
        0 <= g.w,
        x != OUTSIDE,
    ensures
        total(flat(grid_lists(g.w, n)), |e: (int, int, int)| share(g, x, e)) == (n - 1) * row_count(
            g,
            x,
            n - 1,
            g.w,
        ) - (rows_count(g, x, n - 1)) - rows_count(g, x, n) + if n == 0 {
            row_count(g, x, -1, g.w)
        } else {
            0
        },
    decreases n,
{
    reveal(RegionGrid::at);
    let f = |e: (int, int, int)| share(g, x, e);
    let lists = grid_lists(g.w, n);
    if n == 0 {
        lemma_outside(g, x, -1, g.w);
        assert((0int - 1) * 0 == 0);
        assert(lists.len() == 0);
    } else {
        lemma_grid_total(g, x, n - 1);
        let j = n - 1;
        assert(lists.drop_last() =~= grid_lists(g.w, n - 1));
        assert(lists.last() == row_edges(j, g.w + 1));
        lemma_total_add(flat(grid_lists(g.w, n - 1)), row_edges(j, g.w + 1), f);
        lemma_row_total(g, x, j, g.w + 1);
        // The column past the last pixel is outside.
        assert(here(g, x, g.w, j) == 0);
        assert(here(g, x, g.w, j - 1) == 0);
        assert((g.w + 1) * 0 == 0);
        let me = row_count(g, x, j, g.w);
        let above = row_count(g, x, j - 1, g.w);
        assert(row_count(g, x, j, g.w + 1) == me);
        assert(row_count(g, x, j - 1, g.w + 1) == above);
        if n == 1 {
            lemma_outside(g, x, -1, g.w);
            assert(-j * (above - me) == 0) by (nonlinear_arith)
                requires
                    j == 0,
            ;
            assert((0int) * me == 0);
        } else {
            assert((j - 1) * above + (-j * (above - me)) == j * me - above) by (nonlinear_arith);
        }
    }
}

/// Rows of pixels are counted like the whole map.
proof fn lemma_rows_count(g: RegionGrid, x: u32, j: int, n: int)
    requires
        0 <= n <= g.w,
        0 <= j,
        j < g.h || (j == g.h && n == 0),
        g.regions.len() == g.w * g.h,
    ensures
        0 <= j * g.w + n <= g.regions.len(),
        count_of(g.regions.take(j * g.w + n), x) == rows_count(g, x, j) + row_count(g, x, j, n),
    decreases j, n,
{
    reveal(RegionGrid::at);
    assert(0 <= j * g.w && j * g.w + n <= g.w * g.h) by (nonlinear_arith)
        requires
            0 <= n <= g.w,
            0 <= j,
            j < g.h || (j == g.h && n == 0),
    ;
    if n > 0 {
        lemma_rows_count(g, x, j, n - 1);
        let part = g.regions.take(j * g.w + n);
        assert(part.drop_last() =~= g.regions.take(j * g.w + (n - 1)));
        assert(part.last() == g.at(n - 1, j));
    } else if j > 0 {
        lemma_rows_count(g, x, j - 1, g.w);
        assert((j - 1) * g.w + g.w == j * g.w) by (nonlinear_arith);
    } else {
        assert(0 * g.w == 0);
        assert(g.regions.take(0).len() == 0);
    }
}

// ---- The law ------------------------------------------------------------

proof fn lemma_edges_total(g: RegionGrid, nodes: Seq<GridPoint>, arcs: Seq<Arc<GridPoint>>, x: u32)
    requires
        0 <= g.w,
        0 <= g.h,
        forall|a: int| 0 <= a < arcs.len() ==> arc_ok(g, nodes, #[trigger] arcs[a]),
        is_partition(g, lines_of(arcs)),
        x != OUTSIDE,
    ensures
        total(
            flat(edge_lists(lines_of(arcs))),
            |e: (int, int, int)| share(g, x, e),
        ) == total(
            flat(grid_lists(g.w, g.h + 1)),
            |e: (int, int, int)| share(g, x, e),
        ),
{
    let f = |e: (int, int, int)| share(g, x, e);
    let lines = lines_of(arcs);
    let lists = edge_lists(lines);
    let grid = grid_lists(g.w, g.h + 1);
    let few = flat(lists);
    let many = flat(grid);
    assert(apart(lists)) by {
        assert forall|q: int, i: int, r: int, j: int|
            0 <= q < lists.len() && 0 <= i < lists[q].len() && 0 <= r < lists.len() && 0 <= j
                < lists[r].len() && #[trigger] lists[q][i] == #[trigger] lists[r][j] implies q == r
            && i == j by {
            assert(is_line_step(lines, q, i) && is_line_step(lines, r, j));
            assert(line_edge(lines, q, i) == line_edge(lines, r, j));
        }
    }
    lemma_flat_distinct(lists);
    assert(apart(grid)) by {
        assert forall|q: int, i: int, r: int, j: int|
            0 <= q < grid.len() && 0 <= i < grid[q].len() && 0 <= r < grid.len() && 0 <= j
                < grid[r].len() && #[trigger] grid[q][i] == #[trigger] grid[r][j] implies q == r
            && i == j by {
            lemma_row_edges(q, g.w + 1);
            lemma_row_edges(r, g.w + 1);
        }
    }
    lemma_flat_distinct(grid);
    // Every edge that a line runs along leaves a lattice point eastwards or
    // southwards.
    assert forall|i: int| 0 <= i < few.len() implies many.contains(#[trigger] few[i]) by {
        let e = few[i];
        assert(few.contains(e));
        lemma_flat_contains(lists, e);
        let a = choose|a: int| 0 <= a < lists.len() && (#[trigger] lists[a]).contains(e);
        let k = choose|k: int| 0 <= k < lists[a].len() && lists[a][k] == e;
        assert(e == line_edge(lines, a, k));
        assert(arc_ok(g, nodes, arcs[a]));
        let line = lines[a];
        assert(is_chain(g, line, arcs[a].left, arcs[a].right));
        assert(good_step(g, line, k, arcs[a].left, arcs[a].right));
        assert(in_lattice(g, line[k].x as int, line[k].y as int));
        assert(in_lattice(g, line[k + 1].x as int, line[k + 1].y as int));
        assert(0 <= e.0 <= g.w && 0 <= e.1 <= g.h && (e.2 == 0 || e.2 == 1));
        lemma_row_edges(e.1, g.w + 1);
        let at = 2 * e.0 + e.2;
        assert(grid[e.1][at] == e);
        assert(grid[e.1].contains(e));
        assert(in_some(grid, e));
        lemma_flat_contains(grid, e);
    }
    // An edge with a share has a region on one side that is not on the other.
    assert forall|i: int| 0 <= i < many.len() && f(#[trigger] many[i]) != 0 implies few.contains(
        many[i],
    ) by {
        let e = many[i];
        assert(many.contains(e));
        lemma_flat_contains(grid, e);
        let j = choose|j: int| 0 <= j < grid.len() && (#[trigger] grid[j]).contains(e);
        let k = choose|k: int| 0 <= k < grid[j].len() && grid[j][k] == e;
        lemma_row_edges(j, g.w + 1);
        assert(e == (k / 2, j, k % 2));
        assert(in_lattice(g, e.0, e.1));
        assert(is_dir(e.2));
        assert(lean(g, x, e) != 0) by {
            if lean(g, x, e) == 0 {
                assert(0 * reach(e) == 0);
            }
        }
        assert(crack(g, e.0, e.1, e.2));
        assert(edge_of(e.0, e.1, e.2) == e);
        assert(on_some_line(lines, edge_of(e.0, e.1, e.2)));
        let (a, s) = choose|a: int, s: int|
            is_line_step(lines, a, s) && #[trigger] line_edge(lines, a, s) == e;
        assert(lists[a][s] == e);
        assert(lists[a].contains(e));
        assert(in_some(lists, e));
        lemma_flat_contains(lists, e);
    }
    lemma_same_total(few, many, f);
}

/// The rings of a region enclose exactly its pixels: their signed areas, outer
/// boundaries counting negative and holes positive, add up to minus the number
/// of its pixels.
pub proof fn law_rings_enclose_the_region(
    g: RegionGrid,
    region_count: int,
    t: Topology<GridPoint>,
    x: int,
)
    requires
        is_topology_of(g, region_count, t),
        0 <= x < region_count < u32::MAX,
        0 <= g.w,
        0 <= g.h,
        g.regions.len() == g.w * g.h,
        t.arcs@.len() <= u32::MAX,
    ensures
        enclosed(t.region_rings@[x]@, t.region_rings@[x]@.len() as int) == -2 * count_of(
            g.regions,
            x as u32,
        ),
{
    let arcs = t.arcs@;
    let rings = t.region_rings@[x]@;
    let v = x as u32;
    assert(region_rings_ok(arcs, v, rings));
    lemma_rings_arcs(arcs, v, rings);
    lemma_arcs_edges(g, t.nodes@, arcs, v, arcs.len() as int);
    let lists = edge_lists(lines_of(arcs));
    assert(lists.take(arcs.len() as int) =~= lists);
    lemma_edges_total(g, t.nodes@, arcs, v);
    lemma_grid_total(g, v, g.h + 1);
    lemma_outside(g, v, g.h, g.w);
    assert(g.h * 0 == 0);
    assert(rows_count(g, v, g.h + 1) == rows_count(g, v, g.h) + row_count(g, v, g.h, g.w));
    lemma_rows_count(g, v, g.h, 0);
    assert(g.h * g.w + 0 == g.regions.len()) by (nonlinear_arith)
        requires
            g.regions.len() == g.w * g.h,
    ;
    assert(g.regions.take(g.regions.len() as int) =~= g.regions);
}

} // verus!
