//! Bookkeeping on the lattice of pixel corners: which edges are taken, and
//! which nodes have been numbered.

use crate::components::{count_of, lemma_count_one, lemma_count_update};
use vstd::prelude::*;

verus! {

/// A corner of the pixel lattice.
#[derive(Clone, Copy, Debug, PartialEq, Eq, Structural)]
pub struct GridPoint {
    pub x: u32,
    pub y: u32,
}


/// Row-major position of node `(i, j)` in a lattice of `stride` columns.
pub open spec fn slot(stride: int, i: int, j: int) -> int {
    j * stride + i
}

pub proof fn lemma_slot(stride: int, rows: int, i: int, j: int)
    requires
        0 <= i < stride,
        0 <= j < rows,
    ensures
        0 <= slot(stride, i, j) < stride * rows,
        0 <= j * stride,
{
    assert(j * stride + stride <= stride * rows) by (nonlinear_arith)
        requires
            0 <= stride,
            j + 1 <= rows,
    ;
    assert(0 <= j * stride) by (nonlinear_arith)
        requires
            0 <= stride,
            0 <= j,
    ;
}

pub proof fn lemma_slot_injective(stride: int, i: int, j: int, i2: int, j2: int)
    requires
        0 <= i < stride,
        0 <= i2 < stride,
        slot(stride, i, j) == slot(stride, i2, j2),
    ensures
        i == i2,
        j == j2,
{
    assert(j == j2) by (nonlinear_arith)
        requires
            0 <= i < stride,
            0 <= i2 < stride,
            j * stride + i == j2 * stride + i2,
    ;
}

/// A set of lattice edges `(i, j, d)`, where `d` is 0 for the edge east of
/// `(i, j)` and 1 for the one south of it.
pub struct EdgeSet {
    stride: usize,
    rows: usize,
    bits: Vec<u32>,
}

impl EdgeSet {
    pub closed spec fn wf(&self) -> bool {
        &&& self.bits@.len() == 2 * (self.stride * self.rows)
        &&& forall|k: int| 0 <= k < self.bits@.len() ==> #[trigger] self.bits@[k] <= 1
    }

    pub closed spec fn columns(&self) -> int {
        self.stride as int
    }

    pub closed spec fn lines(&self) -> int {
        self.rows as int
    }

    pub open spec fn in_range(&self, e: (int, int, int)) -> bool {
        0 <= e.0 < self.columns() && 0 <= e.1 < self.lines() && (e.2 == 0 || e.2 == 1)
    }

    closed spec fn bit(&self, e: (int, int, int)) -> int {
        2 * slot(self.stride as int, e.0, e.1) + e.2
    }

    pub closed spec fn view(&self) -> Set<(int, int, int)> {
        Set::new(|e: (int, int, int)| self.in_range(e) && self.bits@[self.bit(e)] == 1)
    }

    /// How many edges are not in the set.
    pub closed spec fn free(&self) -> nat {
        count_of(self.bits@, 0)
    }

    pub fn new(stride: usize, rows: usize) -> (s: EdgeSet)
        requires
            2 * (stride * rows) <= usize::MAX,
        ensures
            s.wf(),
            s.columns() == stride,
            s.lines() == rows,
            s@ == Set::<(int, int, int)>::empty(),
            s.free() == 2 * (stride * rows),
    {
        let mut bits: Vec<u32> = Vec::new();
        assert(stride * rows <= 2 * (stride * rows)) by (nonlinear_arith);
        let n: usize = 2 * (stride * rows);
        let mut k: usize = 0;
        while k < n
            invariant
                k <= n,
                bits@.len() == k,
                forall|q: int| 0 <= q < k ==> #[trigger] bits@[q] == 0,
                count_of(bits@, 0) == k,
            decreases n - k,
        {
            let ghost b0 = bits@;
            bits.push(0);
            assert(bits@.drop_last() =~= b0);
            k = k + 1;
        }
        let s = EdgeSet { stride, rows, bits };
        proof {
            assert forall|e: (int, int, int)| !s@.contains(e) by {
                if s.in_range(e) {
                    lemma_slot(stride as int, rows as int, e.0, e.1);
                }
            }
            assert(s@ =~= Set::<(int, int, int)>::empty());
        }
        s
    }

    pub fn contains(&self, i: u32, j: u32, d: u32) -> (b: bool)
        requires
            self.wf(),
            self.in_range((i as int, j as int, d as int)),
        ensures
            b == self@.contains((i as int, j as int, d as int)),
    {
        proof {
            lemma_slot(self.stride as int, self.rows as int, i as int, j as int);
            assert(self.bits@.len() == self.bits.len());
        }
        self.bits[2 * (j as usize * self.stride + i as usize) + d as usize] == 1
    }

    pub fn insert(&mut self, i: u32, j: u32, d: u32)
        requires
            old(self).wf(),
            old(self).in_range((i as int, j as int, d as int)),
            !old(self)@.contains((i as int, j as int, d as int)),
        ensures
            final(self).wf(),
            final(self).columns() == old(self).columns(),
            final(self).lines() == old(self).lines(),
            final(self)@ == old(self)@.insert((i as int, j as int, d as int)),
            final(self).free() == old(self).free() - 1,
    {
        proof {
            lemma_slot(self.stride as int, self.rows as int, i as int, j as int);
            assert(self.bits@.len() == self.bits.len());
        }
        let ghost before = *self;
        let k: usize = 2 * (j as usize * self.stride + i as usize) + d as usize;
        assert(self.bits@[k as int] == 0);
        self.bits.set(k, 1);
        proof {
            lemma_count_update(before.bits@, k as int, 1, 0);
            let e0 = (i as int, j as int, d as int);
            assert forall|e: (int, int, int)|
                self@.contains(e) <==> before@.insert(e0).contains(e) by {
                if self.in_range(e) {
                    lemma_slot(self.stride as int, self.rows as int, e.0, e.1);
                    if self.bit(e) == k {
                        lemma_slot_injective(self.stride as int, e.0, e.1, e0.0, e0.1);
                    }
                }
            }
            assert(self@ =~= before@.insert(e0));
        }
    }
}

/// Numbers lattice nodes in the order in which they are first asked for.
pub struct NodeTable {
    stride: usize,
    rows: usize,
    ids: Vec<u32>,
    nodes: Vec<GridPoint>,
}

impl NodeTable {
    pub closed spec fn wf(&self) -> bool {
        &&& self.ids@.len() == self.stride * self.rows
        &&& self.stride * self.rows < u32::MAX
        &&& self.nodes@.len() + count_of(self.ids@, u32::MAX) == self.stride * self.rows
        &&& forall|k: int|
            0 <= k < self.nodes@.len() ==> self.in_range(#[trigger] self.nodes@[k]) && self.ids@[slot(
                self.stride as int,
                self.nodes@[k].x as int,
                self.nodes@[k].y as int,
            )] == k
        &&& forall|p: GridPoint|
            #[trigger] self.in_range(p) ==> {
                let id = self.ids@[slot(self.stride as int, p.x as int, p.y as int)];
                id == u32::MAX || (id < self.nodes@.len() && self.nodes@[id as int] == p)
            }
    }

    /// The numbered nodes, each at its number.
    pub closed spec fn view(&self) -> Seq<GridPoint> {
        self.nodes@
    }

    pub closed spec fn columns(&self) -> int {
        self.stride as int
    }

    pub closed spec fn lines(&self) -> int {
        self.rows as int
    }

    pub open spec fn in_range(&self, p: GridPoint) -> bool {
        p.x < self.columns() && p.y < self.lines()
    }

    /// No position is numbered twice.
    pub proof fn lemma_distinct(&self)
        requires
            self.wf(),
        ensures
            forall|a: int, b: int|
                0 <= a < self@.len() && 0 <= b < self@.len()
                    && #[trigger] self@[a] == #[trigger] self@[b] ==> a == b,
            self@.len() < u32::MAX,
            forall|k: int|
                0 <= k < self@.len() ==> self.in_range(#[trigger] self@[k]),
    {
    }

    pub fn new(stride: usize, rows: usize) -> (t: NodeTable)
        requires
            stride * rows < u32::MAX,
        ensures
            t.wf(),
            t.columns() == stride,
            t.lines() == rows,
            t@.len() == 0,
    {
        let n: usize = stride * rows;
        let mut ids: Vec<u32> = Vec::new();
        let mut k: usize = 0;
        while k < n
            invariant
                k <= n,
                ids@.len() == k,
                forall|q: int| 0 <= q < k ==> #[trigger] ids@[q] == u32::MAX,
                count_of(ids@, u32::MAX) == k,
            decreases n - k,
        {
            let ghost b0 = ids@;
            ids.push(u32::MAX);
            assert(ids@.drop_last() =~= b0);
            k = k + 1;
        }
        let t = NodeTable { stride, rows, ids, nodes: Vec::new() };
        proof {
            assert forall|p: GridPoint| #[trigger] t.in_range(p) implies t.ids@[slot(
                t.stride as int,
                p.x as int,
                p.y as int,
            )] == u32::MAX by {
                lemma_slot(stride as int, rows as int, p.x as int, p.y as int);
            }
        }
        t
    }

    /// The number of node `p`, a new one where it has none yet.
    pub fn intern(&mut self, p: GridPoint) -> (id: u32)
        requires
            old(self).wf(),
            old(self).in_range(p),
        ensures
            final(self).wf(),
            final(self).columns() == old(self).columns(),
            final(self).lines() == old(self).lines(),
            id < final(self)@.len(),
            final(self)@[id as int] == p,
            old(self)@.contains(p) ==> final(self)@ == old(self)@,
            !old(self)@.contains(p) ==> final(self)@ == old(self)@.push(p),
    {
        proof {
            lemma_slot(self.stride as int, self.rows as int, p.x as int, p.y as int);
        }
        let k: usize = p.y as usize * self.stride + p.x as usize;
        let found: u32 = self.ids[k];
        if found == u32::MAX {
            let ghost before = *self;
            proof {
                lemma_count_one(self.ids@, k as int);
                if before.nodes@.contains(p) {
                    let q = choose|q: int| 0 <= q < before.nodes@.len() && before.nodes@[q] == p;
                    assert(before.ids@[k as int] == q);
                }
            }
            let id: u32 = self.nodes.len() as u32;
            self.ids.set(k, id);
            self.nodes.push(p);
            proof {
                lemma_count_update(before.ids@, k as int, id, u32::MAX);
                assert forall|q: int| 0 <= q < self.nodes@.len() implies self.in_range(
                    #[trigger] self.nodes@[q],
                ) && self.ids@[slot(
                    self.stride as int,
                    self.nodes@[q].x as int,
                    self.nodes@[q].y as int,
                )] == q by {
                    if q < before.nodes@.len() {
                        let r = self.nodes@[q];
                        assert(r == before.nodes@[q]);
                        assert(before.in_range(r));
                        lemma_slot(self.stride as int, self.rows as int, r.x as int, r.y as int);
                    }
                }
                assert forall|r: GridPoint| #[trigger] self.in_range(r) implies {
                    let v = self.ids@[slot(self.stride as int, r.x as int, r.y as int)];
                    v == u32::MAX || (v < self.nodes@.len() && self.nodes@[v as int] == r)
                } by {
                    assert(before.in_range(r));
                    lemma_slot(self.stride as int, self.rows as int, r.x as int, r.y as int);
                    if slot(self.stride as int, r.x as int, r.y as int) == k {
                        lemma_slot_injective(
                            self.stride as int,
                            r.x as int,
                            r.y as int,
                            p.x as int,
                            p.y as int,
                        );
                    }
                }
            }
            id
        } else {
            proof {
                assert(self.in_range(p));
                assert(self.nodes@[found as int] == p);
            }
            found
        }
    }

    pub fn into_nodes(self) -> (nodes: Vec<GridPoint>)
        ensures
            nodes@ == self@,
    {
        self.nodes
    }
}

} // verus!
