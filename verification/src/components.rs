//! Four-connected component labelling of a grid of labels.

use vstd::prelude::*;

verus! {

/// How many elements of `s` equal `v`.
pub open spec fn count_of(s: Seq<u32>, v: u32) -> nat
    decreases s.len(),
{
    if s.len() == 0 {
        0
    } else {
        count_of(s.drop_last(), v) + if s.last() == v {
            1nat
        } else {
            0nat
        }
    }
}

/// Pixels `p` and `q` of a row-major grid of width `w` share a side.
pub open spec fn adjacent(w: int, p: int, q: int) -> bool {
    ||| q == p + w
    ||| p == q + w
    ||| (q == p + 1 && q % w != 0)
    ||| (p == q + 1 && p % w != 0)
}

/// `path` leads from `p` to `q` over side-sharing pixels that all carry the
/// label of `p`.
pub open spec fn is_path(labels: Seq<u32>, w: int, path: Seq<int>, p: int, q: int) -> bool {
    &&& path.len() > 0
    &&& path[0] == p
    &&& path.last() == q
    &&& forall|i: int|
        0 <= i < path.len() ==> 0 <= #[trigger] path[i] < labels.len() && labels[path[i]]
            == labels[p]
    &&& forall|i: int, j: int|
        0 <= i && j == i + 1 && j < path.len() ==> adjacent(w, #[trigger] path[i], #[trigger] path[j])
}

/// `p` and `q` belong to one blob: a path of equally labelled pixels joins them.
pub open spec fn connected(labels: Seq<u32>, w: int, p: int, q: int) -> bool {
    exists|path: Seq<int>| is_path(labels, w, path, p, q)
}

/// `p` is the first pixel of region `r`, and every pixel before it belongs to a
/// lower-numbered region.
pub open spec fn first_pixel(regions: Seq<u32>, r: int, p: int) -> bool {
    &&& 0 <= p < regions.len()
    &&& regions[p] == r
    &&& forall|q: int| 0 <= q < p ==> #[trigger] regions[q] < r
}

/// The three tables describe the connected components of `labels`: two pixels
/// carry one region id exactly when they are connected, ids are handed out in
/// the order in which the regions are first met, and each region's label and
/// pixel count are recorded under its id.
pub open spec fn is_components(
    labels: Seq<u32>,
    w: int,
    regions: Seq<u32>,
    region_label: Seq<u32>,
    region_area: Seq<u32>,
) -> bool {
    &&& regions.len() == labels.len()
    &&& region_label.len() == region_area.len()
    &&& forall|p: int|
        0 <= p < regions.len() ==> (#[trigger] regions[p]) < region_label.len()
            && region_label[regions[p] as int] == labels[p]
    &&& forall|r: int|
        0 <= r < region_area.len() ==> #[trigger] region_area[r] == count_of(regions, r as u32)
    &&& forall|p: int, q: int|
        0 <= p < regions.len() && 0 <= q < regions.len() ==> (#[trigger] regions[p]
            == #[trigger] regions[q] <==> connected(labels, w, p, q))
    &&& forall|r: int|
        0 <= r < region_label.len() ==> #[trigger] numbered_in_order(regions, r)
}

/// Region `r` occurs, and is first met after lower-numbered regions only.
pub open spec fn numbered_in_order(regions: Seq<u32>, r: int) -> bool {
    exists|p: int| first_pixel(regions, r, p)
}

pub proof fn lemma_count_bound(s: Seq<u32>, v: u32)
    ensures
        count_of(s, v) <= s.len(),
    decreases s.len(),
{
    if s.len() > 0 {
        lemma_count_bound(s.drop_last(), v);
    }
}

pub proof fn lemma_count_update(s: Seq<u32>, i: int, new: u32, v: u32)
    requires
        0 <= i < s.len(),
    ensures
        count_of(s.update(i, new), v) == count_of(s, v) - (if s[i] == v {
            1int
        } else {
            0
        }) + (if new == v {
            1int
        } else {
            0
        }),
    decreases s.len(),
{
    if i == s.len() - 1 {
        assert(s.update(i, new).drop_last() =~= s.drop_last());
    } else {
        assert(s.update(i, new).drop_last() =~= s.drop_last().update(i, new));
        lemma_count_update(s.drop_last(), i, new, v);
    }
}

pub proof fn lemma_count_zero(s: Seq<u32>, v: u32)
    requires
        forall|i: int| 0 <= i < s.len() ==> #[trigger] s[i] != v,
    ensures
        count_of(s, v) == 0,
    decreases s.len(),
{
    if s.len() > 0 {
        lemma_count_zero(s.drop_last(), v);
    }
}

pub proof fn lemma_count_one(s: Seq<u32>, i: int)
    requires
        0 <= i < s.len(),
    ensures
        count_of(s, s[i]) >= 1,
    decreases s.len(),
{
    if i < s.len() - 1 {
        lemma_count_one(s.drop_last(), i);
    }
}

proof fn lemma_connected_refl(labels: Seq<u32>, w: int, p: int)
    requires
        0 <= p < labels.len(),
    ensures
        connected(labels, w, p, p),
{
    assert(is_path(labels, w, seq![p], p, p));
}

proof fn lemma_connected_step(labels: Seq<u32>, w: int, p: int, q: int, r: int)
    requires
        connected(labels, w, p, q),
        adjacent(w, q, r),
        0 <= r < labels.len(),
        labels[r] == labels[q],
    ensures
        connected(labels, w, p, r),
{
    let path = choose|path: Seq<int>| is_path(labels, w, path, p, q);
    let longer = path.push(r);
    assert(labels[path[path.len() - 1]] == labels[p]);
    assert forall|i: int, j: int| 0 <= i && j == i + 1 && j < longer.len() implies adjacent(
        w,
        #[trigger] longer[i],
        #[trigger] longer[j],
    ) by {
        if j < path.len() {
            assert(adjacent(w, path[i], path[j]));
        }
    }
    assert(is_path(labels, w, longer, p, r));
}

/// Connection is symmetric.
pub proof fn lemma_connected_sym(labels: Seq<u32>, w: int, p: int, q: int)
    requires
        connected(labels, w, p, q),
    ensures
        connected(labels, w, q, p),
{
    let path = choose|path: Seq<int>| is_path(labels, w, path, p, q);
    let back = path.reverse();
    assert(labels[path[path.len() - 1]] == labels[p]);
    assert forall|i: int, j: int| 0 <= i && j == i + 1 && j < back.len() implies adjacent(
        w,
        #[trigger] back[i],
        #[trigger] back[j],
    ) by {
        assert(adjacent(w, path[path.len() - 1 - j], path[path.len() - 1 - i]));
    }
    assert(is_path(labels, w, back, q, p));
}

/// Connection is transitive.
pub proof fn lemma_connected_trans(labels: Seq<u32>, w: int, p: int, q: int, r: int)
    requires
        connected(labels, w, p, q),
        connected(labels, w, q, r),
    ensures
        connected(labels, w, p, r),
{
    let tail = choose|path: Seq<int>| is_path(labels, w, path, q, r);
    lemma_connected_along(labels, w, p, q, r, tail, tail.len() - 1);
}

proof fn lemma_connected_along(
    labels: Seq<u32>,
    w: int,
    p: int,
    q: int,
    r: int,
    tail: Seq<int>,
    k: int,
)
    requires
        connected(labels, w, p, q),
        is_path(labels, w, tail, q, r),
        0 <= k < tail.len(),
    ensures
        connected(labels, w, p, tail[k]),
    decreases k,
{
    if k > 0 {
        lemma_connected_along(labels, w, p, q, r, tail, k - 1);
        assert(adjacent(w, tail[k - 1], tail[k]));
        lemma_connected_step(labels, w, p, tail[k - 1], tail[k]);
    }
}

/// No equally labelled neighbours are told apart by `regions`.
spec fn closed_under_adjacency(labels: Seq<u32>, w: int, regions: Seq<u32>) -> bool {
    forall|p: int, q: int|
        0 <= p < labels.len() && 0 <= q < labels.len() && #[trigger] adjacent(w, p, q)
            && labels[p] == labels[q] && regions[p] != u32::MAX ==> regions[q] == regions[p]
}

proof fn lemma_path_stays(labels: Seq<u32>, w: int, regions: Seq<u32>, path: Seq<int>, p: int, q: int, k: int)
    requires
        regions.len() == labels.len(),
        closed_under_adjacency(labels, w, regions),
        is_path(labels, w, path, p, q),
        regions[p] != u32::MAX,
        0 <= k < path.len(),
    ensures
        regions[path[k]] == regions[p],
    decreases k,
{
    if k > 0 {
        lemma_path_stays(labels, w, regions, path, p, q, k - 1);
        assert(adjacent(w, path[k - 1], path[k]));
        assert(labels[path[k - 1]] == labels[path[k]]);
    }
}

proof fn lemma_connected_same(labels: Seq<u32>, w: int, regions: Seq<u32>, p: int, q: int)
    requires
        regions.len() == labels.len(),
        closed_under_adjacency(labels, w, regions),
        connected(labels, w, p, q),
        regions[p] != u32::MAX,
    ensures
        regions[q] == regions[p],
{
    let path = choose|path: Seq<int>| is_path(labels, w, path, p, q);
    lemma_path_stays(labels, w, regions, path, p, q, path.len() - 1);
}

/// Every equally labelled neighbour of a pixel of region `id` is in the region
/// already, but for pixels still waiting in `stack` and for `active`.
spec fn frontier(
    labels: Seq<u32>,
    w: int,
    regions: Seq<u32>,
    id: u32,
    stack: Seq<u32>,
    active: int,
) -> bool {
    forall|p: int, q: int|
        0 <= p < labels.len() && 0 <= q < labels.len() && #[trigger] adjacent(w, p, q)
            && labels[p] == labels[q] && regions[p] == id ==> regions[q] == id || p == active
            || stack.contains(p as u32)
}

/// Regions other than `id` are complete.
spec fn others_closed(labels: Seq<u32>, w: int, regions: Seq<u32>, id: u32) -> bool {
    forall|p: int, q: int|
        0 <= p < labels.len() && 0 <= q < labels.len() && #[trigger] adjacent(w, p, q)
            && labels[p] == labels[q] && regions[p] != u32::MAX && regions[p] != id ==> regions[q]
            == regions[p]
}

/// State of the flood fill of region `id` from `start`, while the neighbours of
/// `active` are being visited.
spec fn filling(
    labels: Seq<u32>,
    w: int,
    before: Seq<u32>,
    regions: Seq<u32>,
    id: u32,
    start: int,
    stack: Seq<u32>,
    active: int,
) -> bool {
    &&& regions.len() == labels.len()
    &&& before.len() == labels.len()
    &&& id < u32::MAX
    &&& 0 <= start < labels.len()
    &&& forall|p: int|
        0 <= p < labels.len() ==> #[trigger] regions[p] == before[p] || (before[p] == u32::MAX
            && regions[p] == id && connected(labels, w, start, p) && labels[p] == labels[start])
    &&& forall|i: int|
        0 <= i < stack.len() ==> (#[trigger] stack[i]) < labels.len() && regions[stack[i] as int]
            == id
    &&& forall|p: int| 0 <= p < labels.len() ==> #[trigger] before[p] != id
    &&& frontier(labels, w, regions, id, stack, active)
    &&& others_closed(labels, w, regions, id)
}

/// Claim neighbour `q` of `p` for the region being filled, if it is free and
/// carries the region's label.
fn visit(
    labels: &Vec<u32>,
    regions: &mut Vec<u32>,
    stack: &mut Vec<u32>,
    label: u32,
    id: u32,
    q: usize,
    Ghost(w): Ghost<int>,
    Ghost(before): Ghost<Seq<u32>>,
    Ghost(start): Ghost<int>,
    Ghost(p): Ghost<int>,
)
    requires
        q < labels@.len(),
        labels@.len() < u32::MAX,
        0 <= p < labels@.len(),
        adjacent(w, p, q as int),
        filling(labels@, w, before, old(regions)@, id, start, old(stack)@, p),
        old(regions)@[p] == id,
        label == labels@[start],
    ensures
        filling(labels@, w, before, final(regions)@, id, start, final(stack)@, p),
        final(regions)@[p] == id,
        labels@[q as int] == label ==> final(regions)@[q as int] != u32::MAX,
        forall|i: int|
            0 <= i < labels@.len() && old(regions)@[i] != u32::MAX ==> #[trigger] final(regions)@[i]
                == old(regions)@[i],
        count_of(final(regions)@, id) - final(stack)@.len()
            == count_of(old(regions)@, id) - old(stack)@.len(),
        count_of(final(regions)@, u32::MAX) + final(stack)@.len()
            == count_of(old(regions)@, u32::MAX) + old(stack)@.len(),
        final(stack)@.len() >= old(stack)@.len(),
{
    if regions[q] == u32::MAX && labels[q] == label {
        let ghost r0 = regions@;
        let ghost s0 = stack@;
        regions.set(q, id);
        stack.push(q as u32);
        proof {
            lemma_count_update(r0, q as int, id, id);
            lemma_count_update(r0, q as int, id, u32::MAX);
            assert(r0[p] == before[p] || connected(labels@, w, start, p));
            lemma_connected_step(labels@, w, start, p, q as int);
            assert forall|a: int, b: int|
                0 <= a < labels@.len() && 0 <= b < labels@.len() && #[trigger] adjacent(w, a, b)
                    && labels@[a] == labels@[b] && regions@[a] == id implies regions@[b] == id || a
                == p || stack@.contains(a as u32) by {
                if a == q {
                    assert(stack@[s0.len() as int] == q as u32);
                } else {
                    assert(r0[a] == id);
                    if r0[b] != id && a != p {
                        assert(s0.contains(a as u32));
                        let i = choose|i: int| 0 <= i < s0.len() && s0[i] == a as u32;
                        assert(stack@[i] == a as u32);
                    }
                }
            }
            assert forall|a: int, b: int|
                0 <= a < labels@.len() && 0 <= b < labels@.len() && #[trigger] adjacent(w, a, b)
                    && labels@[a] == labels@[b] && regions@[a] != u32::MAX && regions@[a]
                    != id implies regions@[b] == regions@[a] by {
                assert(r0[a] == regions@[a]);
                assert(r0[b] == r0[a]);
            }
            assert forall|i: int| 0 <= i < stack@.len() implies (#[trigger] stack@[i])
                < labels@.len() && regions@[stack@[i] as int] == id by {
                if i < s0.len() {
                    assert(stack@[i] == s0[i]);
                }
            }
        }
    }
}

/// Flood region `id` from `start`, a free pixel, and return its pixel count.
fn fill(
    w: usize,
    labels: &Vec<u32>,
    regions: &mut Vec<u32>,
    stack: &mut Vec<u32>,
    start: usize,
    id: u32,
) -> (area: u32)
    requires
        w > 0,
        labels@.len() % (w as nat) == 0,
        labels@.len() < u32::MAX,
        start < labels@.len(),
        id < u32::MAX,
        old(regions)@.len() == labels@.len(),
        old(regions)@[start as int] == u32::MAX,
        old(stack)@.len() == 0,
        forall|p: int| 0 <= p < labels@.len() ==> #[trigger] old(regions)@[p] != id,
        closed_under_adjacency(labels@, w as int, old(regions)@),
    ensures
        final(stack)@.len() == 0,
        final(regions)@.len() == labels@.len(),
        final(regions)@[start as int] == id,
        forall|p: int|
            0 <= p < labels@.len() ==> #[trigger] final(regions)@[p] == old(regions)@[p] || (old(
                regions)@[p] == u32::MAX && final(regions)@[p] == id && connected(
                labels@,
                w as int,
                start as int,
                p,
            ) && labels@[p] == labels@[start as int]),
        closed_under_adjacency(labels@, w as int, final(regions)@),
        area == count_of(final(regions)@, id),
{
    let n: usize = labels.len();
    let label: u32 = labels[start];
    let mut area: u32 = 0;
    let ghost before = regions@;
    regions.set(start, id);
    stack.push(start as u32);
    proof {
        lemma_connected_refl(labels@, w as int, start as int);
        lemma_count_zero(before, id);
        lemma_count_update(before, start as int, id, id);
        assert(stack@[0] == start as u32);
        assert(stack@.contains(start as u32));
        assert forall|a: int, b: int|
            0 <= a < labels@.len() && 0 <= b < labels@.len() && #[trigger] adjacent(w as int, a, b)
                && labels@[a] == labels@[b] && regions@[a] != u32::MAX && regions@[a]
                != id implies regions@[b] == regions@[a] by {
            assert(before[b] == before[a]);
        }
    }
    while stack.len() > 0
        invariant
            n == labels@.len(),
            w > 0,
            n % w == 0,
            n < u32::MAX,
            start < n,
            label == labels@[start as int],
            filling(labels@, w as int, before, regions@, id, start as int, stack@, -1),
            regions@[start as int] == id,
            area + stack@.len() == count_of(regions@, id),
        decreases count_of(regions@, u32::MAX), stack@.len(),
    {
        let ghost s0 = stack@;
        let ghost r0 = regions@;
        proof {
            lemma_count_bound(regions@, id);
        }
        let p: usize = match stack.pop() {
            Some(v) => v as usize,
            None => 0,
        };
        area = area + 1;
        proof {
            assert(s0[s0.len() - 1] == p as u32);
            assert forall|a: int, b: int|
                0 <= a < labels@.len() && 0 <= b < labels@.len() && #[trigger] adjacent(w as int, a, b)
                    && labels@[a] == labels@[b] && regions@[a] == id implies regions@[b] == id || a
                == p || stack@.contains(a as u32) by {
                if regions@[b] != id && a != p {
                    let i = choose|i: int| 0 <= i < s0.len() && s0[i] == a as u32;
                    assert(i < stack@.len());
                    assert(stack@[i] == a as u32);
                }
            }
            assert forall|i: int| 0 <= i < stack@.len() implies (#[trigger] stack@[i])
                < labels@.len() && regions@[stack@[i] as int] == id by {
                assert(stack@[i] == s0[i]);
            }
        }
        if p > 0 && p % w != 0 {
            visit(labels, regions, stack, label, id, p - 1, Ghost(w as int), Ghost(before), Ghost(start as int), Ghost(p as int));
        }
        if (p + 1) % w != 0 {
            assert(p + 1 != n);
            visit(labels, regions, stack, label, id, p + 1, Ghost(w as int), Ghost(before), Ghost(start as int), Ghost(p as int));
        }
        if p >= w {
            visit(labels, regions, stack, label, id, p - w, Ghost(w as int), Ghost(before), Ghost(start as int), Ghost(p as int));
        }
        if w < n - p {
            visit(labels, regions, stack, label, id, p + w, Ghost(w as int), Ghost(before), Ghost(start as int), Ghost(p as int));
        }
        proof {
            assert forall|a: int, b: int|
                0 <= a < labels@.len() && 0 <= b < labels@.len() && #[trigger] adjacent(w as int, a, b)
                    && labels@[a] == labels@[b] && regions@[a] == id implies regions@[b] == id || a
                == -1 || stack@.contains(a as u32) by {
                if a == p {
                    assert(labels@[b] == label);
                    assert(regions@[b] != u32::MAX);
                    if regions@[b] != id {
                        assert(adjacent(w as int, b, a));
                        assert(regions@[a] == regions@[b]);
                    }
                }
            }
        }
    }
    proof {
        assert forall|a: int, b: int|
            0 <= a < labels@.len() && 0 <= b < labels@.len() && #[trigger] adjacent(w as int, a, b)
                && labels@[a] == labels@[b] && regions@[a] != u32::MAX implies regions@[b]
            == regions@[a] by {
            if regions@[a] == id {
                assert(!stack@.contains(a as u32));
            }
        }
    }
    area
}

/// 4-connected component labelling over equal label values: the region of each
/// pixel, then the label and the pixel count of each region.
pub fn connected_components(width: u32, height: u32, labels: &Vec<u32>) -> (out: (
    Vec<u32>,
    Vec<u32>,
    Vec<u32>,
))
    requires
        labels@.len() == width * height,
        labels@.len() < u32::MAX,
    ensures
        is_components(labels@, width as int, out.0@, out.1@, out.2@),
{
    let n: usize = labels.len();
    let w: usize = width as usize;
    let mut regions: Vec<u32> = Vec::new();
    let mut i: usize = 0;
    while i < n
        invariant
            i <= n,
            regions@.len() == i,
            forall|p: int| 0 <= p < i ==> #[trigger] regions@[p] == u32::MAX,
        decreases n - i,
    {
        regions.push(u32::MAX);
        i = i + 1;
    }
    let mut region_label: Vec<u32> = Vec::new();
    let mut region_area: Vec<u32> = Vec::new();
    let mut stack: Vec<u32> = Vec::new();
    let ghost mut first: Seq<int> = Seq::empty();
    let mut start: usize = 0;
    while start < n
        invariant
            n == labels@.len(),
            w == width,
            n == width * height,
            n < u32::MAX,
            start <= n,
            regions@.len() == n,
            stack@.len() == 0,
            region_label@.len() == region_area@.len(),
            region_label@.len() == first.len(),
            region_label@.len() <= start,
            closed_under_adjacency(labels@, w as int, regions@),
            forall|p: int| 0 <= p < start ==> #[trigger] regions@[p] != u32::MAX,
            forall|p: int|
                0 <= p < n && #[trigger] regions@[p] != u32::MAX ==> regions@[p] < first.len()
                    && region_label@[regions@[p] as int] == labels@[p] && connected(
                    labels@,
                    w as int,
                    first[regions@[p] as int],
                    p,
                ),
            forall|r: int|
                0 <= r < first.len() ==> first_pixel(regions@, r, #[trigger] first[r])
                    && region_area@[r] == count_of(regions@, r as u32),
            forall|r: int| 0 <= r < first.len() ==> #[trigger] first[r] < start,
        decreases n - start,
    {
        if regions[start] == u32::MAX {
            let ghost r0 = regions@;
            let ghost f0 = first;
            let id: u32 = region_label.len() as u32;
            region_label.push(labels[start]);
            assert(n % w == 0) by (nonlinear_arith)
                requires
                    n == width * height,
                    w == width,
                    w > 0,
            ;
            let area: u32 = fill(w, labels, &mut regions, &mut stack, start, id);
            region_area.push(area);
            proof {
                first = first.push(start as int);
                assert forall|p: int| 0 <= p < n && #[trigger] regions@[p] != u32::MAX implies
                    regions@[p] < first.len() && region_label@[regions@[p] as int] == labels@[p]
                    && connected(labels@, w as int, first[regions@[p] as int], p) by {
                    if regions@[p] == r0[p] {
                        assert(first[regions@[p] as int] == f0[regions@[p] as int]);
                    } else {
                        assert(regions@[p] == id);
                        assert(first[id as int] == start);
                    }
                }
                assert forall|r: int| 0 <= r < first.len() implies first_pixel(
                    regions@,
                    r,
                    #[trigger] first[r],
                ) && region_area@[r] == count_of(regions@, r as u32) by {
                    if r < f0.len() {
                        assert(first[r] == f0[r]);
                        assert(first_pixel(r0, r, f0[r]));
                        assert forall|q: int| 0 <= q < f0[r] implies #[trigger] regions@[q] < r by {
                            assert(r0[q] < r);
                        }
                        lemma_count_same(r0, regions@, r as u32, id);
                    } else {
                        assert forall|q: int| 0 <= q < start implies #[trigger] regions@[q] < r by {
                            assert(r0[q] != u32::MAX);
                        }
                    }
                }
            }
        }
        start = start + 1;
    }
    proof {
        assert forall|p: int, q: int| 0 <= p < n && 0 <= q < n implies (#[trigger] regions@[p]
            == #[trigger] regions@[q] <==> connected(labels@, w as int, p, q)) by {
            if connected(labels@, w as int, p, q) {
                lemma_connected_same(labels@, w as int, regions@, p, q);
            }
            if regions@[p] == regions@[q] {
                let f = first[regions@[p] as int];
                lemma_connected_sym(labels@, w as int, f, p);
                lemma_connected_trans(labels@, w as int, p, f, q);
            }
        }
        assert forall|r: int| 0 <= r < region_label@.len() implies #[trigger] numbered_in_order(regions@, r) by {
            assert(first_pixel(regions@, r, first[r]));
        }
        assert forall|r: int| 0 <= r < region_area@.len() implies #[trigger] region_area@[r]
            == count_of(regions@, r as u32) by {
            assert(first_pixel(regions@, r, first[r]));
        }
    }
    (regions, region_label, region_area)
}

/// Claiming free pixels for one id leaves the count of any other id alone.
proof fn lemma_count_same(a: Seq<u32>, b: Seq<u32>, v: u32, id: u32)
    requires
        a.len() == b.len(),
        v != u32::MAX,
        v != id,
        forall|p: int|
            0 <= p < a.len() ==> #[trigger] b[p] == a[p] || (a[p] == u32::MAX && b[p] == id),
    ensures
        count_of(a, v) == count_of(b, v),
    decreases a.len(),
{
    if a.len() > 0 {
        assert forall|p: int| 0 <= p < a.len() - 1 implies #[trigger] b.drop_last()[p]
            == a.drop_last()[p] || (a.drop_last()[p] == u32::MAX && b.drop_last()[p] == id) by {
            assert(b[p] == a[p] || (a[p] == u32::MAX && b[p] == id));
        }
        lemma_count_same(a.drop_last(), b.drop_last(), v, id);
        assert(b[a.len() - 1] == a[a.len() - 1] || (a[a.len() - 1] == u32::MAX && b[a.len() - 1]
            == id));
    }
}

// ---- What the regions are -----------------------------------------------

/// Pixels share a side where they lie one step apart, across or down, and not both.
pub proof fn law_sides_are_shared_one_step_apart(w: int, x: int, y: int, u: int, v: int)
    requires
        w >= 1,
        0 <= x < w,
        0 <= u < w,
        0 <= y,
        0 <= v,
    ensures
        adjacent(w, y * w + x, v * w + u) <==> ((x == u && (y == v + 1 || v == y + 1)) || (y == v
            && (x == u + 1 || u == x + 1))),
{
    let p = y * w + x;
    let q = v * w + u;
    vstd::arithmetic::div_mod::lemma_fundamental_div_mod_converse(p, w, y, x);
    vstd::arithmetic::div_mod::lemma_fundamental_div_mod_converse(q, w, v, u);
    assert((y + 1) * w == y * w + w) by (nonlinear_arith);
    assert((v + 1) * w == v * w + w) by (nonlinear_arith);
    if q == p + w {
        vstd::arithmetic::div_mod::lemma_fundamental_div_mod_converse(q, w, y + 1, x);
    }
    if p == q + w {
        vstd::arithmetic::div_mod::lemma_fundamental_div_mod_converse(p, w, v + 1, u);
    }
    if q == p + 1 && q % w != 0 {
        if x + 1 < w {
            vstd::arithmetic::div_mod::lemma_fundamental_div_mod_converse(q, w, y, x + 1);
        } else {
            vstd::arithmetic::div_mod::lemma_fundamental_div_mod_converse(q, w, y + 1, 0);
        }
    }
    if p == q + 1 && p % w != 0 {
        if u + 1 < w {
            vstd::arithmetic::div_mod::lemma_fundamental_div_mod_converse(p, w, v, u + 1);
        } else {
            vstd::arithmetic::div_mod::lemma_fundamental_div_mod_converse(p, w, v + 1, 0);
        }
    }
}

/// How many pixels are in region `r`.
pub open spec fn pixels_of(regions: Seq<u32>, r: u32) -> int {
    regions.filter(|q: u32| q == r).len() as int
}

/// Pixels of one label that share a side are in one region, pixels of different labels
/// never are, a region is recorded with the label of its pixels, and its area is the number
/// of its pixels.
pub proof fn law_regions_hold_together(
    labels: Seq<u32>,
    w: int,
    regions: Seq<u32>,
    region_label: Seq<u32>,
    region_area: Seq<u32>,
    p: int,
    q: int,
)
    requires
        is_components(labels, w, regions, region_label, region_area),
        0 <= p < labels.len(),
        0 <= q < labels.len(),
        region_area.len() <= u32::MAX,
    ensures
        adjacent(w, p, q) && labels[p] == labels[q] ==> regions[p] == regions[q],
        labels[p] != labels[q] ==> regions[p] != regions[q],
        region_label[regions[p] as int] == labels[p],
        region_area[regions[p] as int] == pixels_of(regions, regions[p]),
{
    if adjacent(w, p, q) && labels[p] == labels[q] {
        let path = seq![p, q];
        assert(path[0] == p && path[1] == q);
        assert(is_path(labels, w, path, p, q));
        assert(connected(labels, w, p, q));
    }
    if regions[p] == regions[q] {
        assert(connected(labels, w, p, q));
        let path = choose|path: Seq<int>| is_path(labels, w, path, p, q);
        assert(path[path.len() - 1] == q);
    }
    assert(region_area[regions[p] as int] == count_of(regions, regions[p]));
    lemma_count_is_filter(regions, regions[p]);
}

proof fn lemma_count_is_filter(s: Seq<u32>, v: u32)
    ensures
        count_of(s, v) == pixels_of(s, v),
    decreases s.len(),
{
    reveal(Seq::filter);
    if s.len() > 0 {
        lemma_count_is_filter(s.drop_last(), v);
    }
}

} // verus!
