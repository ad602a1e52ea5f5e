//! Stable sorting by integer keys.

use vstd::prelude::*;

verus! {

/// A sort key, ordered field by field.
#[derive(Clone, Copy, Debug, PartialEq, Eq, Structural)]
pub struct Rank {
    pub first: i64,
    pub second: i64,
    pub third: i64,
    pub fourth: i64,
}

/// Lexicographic order of keys.
pub open spec fn rank_less(a: Rank, b: Rank) -> bool {
    a.first < b.first || (a.first == b.first && (a.second < b.second || (a.second == b.second && (
    a.third < b.third || (a.third == b.third && a.fourth < b.fourth)))))
}

impl Rank {
    pub fn less(&self, other: &Rank) -> (b: bool)
        ensures
            b == rank_less(*self, *other),
    {
        self.first < other.first || (self.first == other.first && (self.second < other.second || (
        self.second == other.second && (self.third < other.third || (self.third == other.third
            && self.fourth < other.fourth)))))
    }
}

/// Index `i` sorts before index `j`: a lesser key, or an equal one met earlier.
pub open spec fn sorts_before(keys: Seq<Rank>, i: usize, j: usize) -> bool {
    rank_less(keys[i as int], keys[j as int]) || (keys[i as int] == keys[j as int] && i < j)
}

/// `order` lists the indices from `lo` up to `hi`, each once, in stable order of
/// their keys.
pub open spec fn is_sorted_range(keys: Seq<Rank>, lo: int, hi: int, order: Seq<usize>) -> bool {
    &&& order.len() == hi - lo
    &&& forall|k: int| 0 <= k < order.len() ==> lo <= #[trigger] order[k] < hi
    &&& forall|i: usize| lo <= i < hi ==> #[trigger] order.contains(i)
    &&& forall|k: int, l: int|
        0 <= k < l < order.len() ==> sorts_before(keys, #[trigger] order[k], #[trigger] order[l])
}

/// `order` is the stable ascending order of `keys`.
pub open spec fn is_stable_order(keys: Seq<Rank>, order: Seq<usize>) -> bool {
    is_sorted_range(keys, 0, keys.len() as int, order)
}

fn comes_first(keys: &Vec<Rank>, i: usize, j: usize) -> (b: bool)
    requires
        i < keys@.len(),
        j < keys@.len(),
    ensures
        b == sorts_before(keys@, i, j),
{
    keys[i].less(&keys[j]) || (keys[i] == keys[j] && i < j)
}

/// All of `s` precede `x`.
spec fn all_before(keys: Seq<Rank>, s: Seq<usize>, x: usize) -> bool {
    forall|k: int| 0 <= k < s.len() ==> sorts_before(keys, #[trigger] s[k], x)
}

fn merge(
    keys: &Vec<Rank>,
    a: &Vec<usize>,
    b: &Vec<usize>,
    Ghost(lo): Ghost<int>,
    Ghost(mid): Ghost<int>,
    Ghost(hi): Ghost<int>,
) -> (out: Vec<usize>)
    requires
        0 <= lo <= mid <= hi <= keys@.len(),
        is_sorted_range(keys@, lo, mid, a@),
        is_sorted_range(keys@, mid, hi, b@),
    ensures
        is_sorted_range(keys@, lo, hi, out@),
{
    let mut out: Vec<usize> = Vec::new();
    let mut i: usize = 0;
    let mut j: usize = 0;
    while i < a.len() || j < b.len()
        invariant
            0 <= lo <= mid <= hi <= keys@.len(),
            is_sorted_range(keys@, lo, mid, a@),
            is_sorted_range(keys@, mid, hi, b@),
            i <= a@.len(),
            j <= b@.len(),
            out@.len() == i + j,
            forall|k: int| 0 <= k < out@.len() ==> lo <= #[trigger] out@[k] < hi,
            forall|k: int| 0 <= k < i ==> out@.contains(#[trigger] a@[k]),
            forall|k: int| 0 <= k < j ==> out@.contains(#[trigger] b@[k]),
            forall|k: int, l: int|
                0 <= k < l < out@.len() ==> sorts_before(
                    keys@,
                    #[trigger] out@[k],
                    #[trigger] out@[l],
                ),
            i < a@.len() ==> all_before(keys@, out@, a@[i as int]),
            j < b@.len() ==> all_before(keys@, out@, b@[j as int]),
        decreases a@.len() - i + b@.len() - j,
    {
        let ghost o0 = out@;
        let from_a: bool = if i >= a.len() {
            false
        } else if j >= b.len() {
            true
        } else {
            comes_first(keys, a[i], b[j])
        };
        let x: usize = if from_a {
            a[i]
        } else {
            b[j]
        };
        out.push(x);
        proof {
            assert(out@[o0.len() as int] == x);
            assert forall|y: usize| o0.contains(y) implies out@.contains(y) by {
                let k = choose|k: int| 0 <= k < o0.len() && o0[k] == y;
                assert(out@[k] == y);
            }
            if from_a && i + 1 < a@.len() {
                assert(sorts_before(keys@, a@[i as int], a@[i + 1]));
            }
            if !from_a && j + 1 < b@.len() {
                assert(sorts_before(keys@, b@[j as int], b@[j + 1]));
            }
        }
        if from_a {
            i = i + 1;
        } else {
            j = j + 1;
        }
    }
    proof {
        assert forall|y: usize| lo <= y < hi implies #[trigger] out@.contains(y) by {
            if y < mid {
                assert(a@.contains(y));
                let k = choose|k: int| 0 <= k < a@.len() && a@[k] == y;
                assert(out@.contains(a@[k]));
            } else {
                assert(b@.contains(y));
                let k = choose|k: int| 0 <= k < b@.len() && b@[k] == y;
                assert(out@.contains(b@[k]));
            }
        }
    }
    out
}

fn sort_range(keys: &Vec<Rank>, lo: usize, hi: usize) -> (out: Vec<usize>)
    requires
        lo <= hi <= keys@.len(),
    ensures
        is_sorted_range(keys@, lo as int, hi as int, out@),
    decreases hi - lo,
{
    let mut out: Vec<usize> = Vec::new();
    if hi - lo == 0 {
        return out;
    }
    if hi - lo == 1 {
        out.push(lo);
        assert(out@[0] == lo);
        assert forall|i: usize| lo <= i < hi implies #[trigger] out@.contains(i) by {
            assert(i == out@[0]);
        }
        return out;
    }
    let mid: usize = lo + (hi - lo) / 2;
    let a: Vec<usize> = sort_range(keys, lo, mid);
    let b: Vec<usize> = sort_range(keys, mid, hi);
    merge(keys, &a, &b, Ghost(lo as int), Ghost(mid as int), Ghost(hi as int))
}

/// The indices of `keys` in ascending order of key; equal keys keep their order.
pub fn stable_order(keys: &Vec<Rank>) -> (order: Vec<usize>)
    ensures
        is_stable_order(keys@, order@),
{
    sort_range(keys, 0, keys.len())
}

/// There is one stable order only.
pub proof fn law_stable_order_is_unique(keys: Seq<Rank>, a: Seq<usize>, b: Seq<usize>)
    requires
        keys.len() <= usize::MAX,
        is_stable_order(keys, a),
        is_stable_order(keys, b),
    ensures
        a == b,
{
    assert forall|k: int| 0 <= k < a.len() implies #[trigger] a[k] == b[k] by {
        lemma_orders_agree(keys, a, b, k);
    }
    assert(a =~= b);
}

proof fn lemma_orders_agree(keys: Seq<Rank>, a: Seq<usize>, b: Seq<usize>, k: int)
    requires
        keys.len() <= usize::MAX,
        is_stable_order(keys, a),
        is_stable_order(keys, b),
        0 <= k < a.len(),
    ensures
        a[k] == b[k],
    decreases k,
{
    assert forall|q: int| 0 <= q < k implies #[trigger] a[q] == b[q] by {
        lemma_orders_agree(keys, a, b, q);
    }
    assert(b.contains(a[k]) && a.contains(b[k]));
    let l = choose|l: int| 0 <= l < b.len() && b[l] == a[k];
    let m = choose|m: int| 0 <= m < a.len() && a[m] == b[k];
    if a[k] != b[k] {
        if l < k {
            assert(a[l] == b[l]);
            assert(sorts_before(keys, a[l], a[k]));
        } else {
            assert(sorts_before(keys, b[k], b[l]));
        }
        if m < k {
            assert(a[m] == b[m]);
            assert(sorts_before(keys, b[m], b[k]));
        } else {
            assert(sorts_before(keys, a[k], a[m]));
        }
    }
}

/// Each element is greater than the one before.
pub open spec fn ascending(s: Seq<usize>) -> bool {
    forall|k: int, l: int| 0 <= k < l < s.len() ==> (#[trigger] s[k]) < (#[trigger] s[l])
}

/// The indices of the true entries, in ascending order.
pub fn marked_indices(marked: &Vec<bool>) -> (out: Vec<usize>)
    ensures
        ascending(out@),
        forall|i: usize|
            #[trigger] out@.contains(i) <==> i < marked@.len() && marked@[i as int],
        forall|k: int| 0 <= k < out@.len() ==> (#[trigger] out@[k]) < marked@.len(),
{
    let mut out: Vec<usize> = Vec::new();
    let mut v: usize = 0;
    while v < marked.len()
        invariant
            v <= marked@.len(),
            ascending(out@),
            forall|k: int| 0 <= k < out@.len() ==> (#[trigger] out@[k]) < v,
            forall|u: usize| #[trigger] out@.contains(u) <==> u < v && marked@[u as int],
        decreases marked@.len() - v,
    {
        let ghost o0 = out@;
        if marked[v] {
            out.push(v);
        }
        proof {
            assert forall|u: usize| #[trigger] out@.contains(u) <==> u < v + 1
                && marked@[u as int] by {
                if o0.contains(u) {
                    let q = choose|q: int| 0 <= q < o0.len() && o0[q] == u;
                    assert(out@[q] == u);
                }
                if out@.contains(u) {
                    let q = choose|q: int| 0 <= q < out@.len() && out@[q] == u;
                    if q < o0.len() {
                        assert(o0[q] == u);
                        assert(o0.contains(u));
                    }
                }
                if u == v && marked@[u as int] {
                    assert(out@[o0.len() as int] == u);
                }
            }
        }
        v = v + 1;
    }
    out
}

/// An ascending list that holds `a` first and `b` last among its members.
pub proof fn lemma_ascending_ends(s: Seq<usize>, a: usize, b: usize)
    requires
        ascending(s),
        s.contains(a),
        s.contains(b),
        forall|k: int| 0 <= k < s.len() ==> a <= #[trigger] s[k] <= b,
    ensures
        s[0] == a,
        s.last() == b,
        a < b ==> s.len() >= 2,
{
    let i = choose|i: int| 0 <= i < s.len() && s[i] == a;
    let j = choose|j: int| 0 <= j < s.len() && s[j] == b;
    if i > 0 {
        assert(s[0] < s[i]);
    }
    if j < s.len() - 1 {
        assert(s[j] < s[s.len() - 1]);
    }
}

} // verus!
