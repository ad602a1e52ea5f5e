//! The headline of a comparison: how many pixels match, and how far off the
//! others are. Differences come in as whole numbers of some small unit.

use crate::order::{
    is_stable_order, law_stable_order_is_unique, sorts_before, stable_order, Rank,
};
use vstd::prelude::*;

verus! {

/// How many differences are at or below the threshold.
pub open spec fn matched(deltas: Seq<u64>, threshold: u64) -> nat
    decreases deltas.len(),
{
    if deltas.len() == 0 {
        0
    } else {
        matched(deltas.drop_last(), threshold) + if deltas.last() <= threshold {
            1nat
        } else {
            0
        }
    }
}

/// Count the pixels within the perceptual threshold.
pub fn count_matched(deltas: &Vec<u64>, threshold: u64) -> (n: usize)
    ensures
        n == matched(deltas@, threshold),
        n <= deltas@.len(),
{
    let mut n: usize = 0;
    let mut i: usize = 0;
    while i < deltas.len()
        invariant
            i <= deltas@.len(),
            n == matched(deltas@.take(i as int), threshold),
            n <= i,
        decreases deltas@.len() - i,
    {
        assert(deltas@.take(i + 1).drop_last() =~= deltas@.take(i as int));
        if deltas[i] <= threshold {
            n = n + 1;
        }
        i = i + 1;
    }
    assert(deltas@.take(i as int) =~= deltas@);
    n
}

/// A sort key that orders like the difference.
pub open spec fn delta_rank(d: u64) -> Rank {
    Rank { first: (d / 2) as i64, second: (d % 2) as i64, third: 0, fourth: 0 }
}

pub open spec fn ranks(deltas: Seq<u64>) -> Seq<Rank> {
    Seq::new(deltas.len(), |i: int| delta_rank(deltas[i]))
}

/// Whether `v` is the entry of `deltas` that 95 in 100 are at or below: entry
/// `19 n / 20` in ascending order, or zero where there is none.
pub open spec fn is_p95(deltas: Seq<u64>, v: u64) -> bool {
    if deltas.len() == 0 {
        v == 0
    } else {
        exists|order: Seq<usize>| #[trigger]
            is_stable_order(ranks(deltas), order) && v == deltas[order[(19 * deltas.len()) as int
                / 20] as int]
    }
}

/// The 95th percentile of the differences.
pub fn p95(deltas: &Vec<u64>) -> (v: u64)
    ensures
        is_p95(deltas@, v),
{
    let n: usize = deltas.len();
    if n == 0 {
        return 0;
    }
    let mut keys: Vec<Rank> = Vec::new();
    let mut i: usize = 0;
    while i < n
        invariant
            i <= n,
            n == deltas@.len(),
            keys@.len() == i,
            forall|k: int| 0 <= k < i ==> #[trigger] keys@[k] == ranks(deltas@)[k],
        decreases n - i,
    {
        let d: u64 = deltas[i];
        keys.push(Rank { first: (d / 2) as i64, second: (d % 2) as i64, third: 0, fourth: 0 });
        i = i + 1;
    }
    assert(keys@ =~= ranks(deltas@));
    let order: Vec<usize> = stable_order(&keys);
    let k: usize = (19 * n as u128 / 20) as usize;
    assert(is_stable_order(ranks(deltas@), order@));
    deltas[order[k]]
}

/// The largest difference, or zero where there is none.
pub open spec fn is_largest(deltas: Seq<u64>, v: u64) -> bool {
    &&& forall|i: int| 0 <= i < deltas.len() ==> #[trigger] deltas[i] <= v
    &&& deltas.len() == 0 ==> v == 0
    &&& deltas.len() > 0 ==> deltas.contains(v)
}

/// The largest difference.
pub fn largest(deltas: &Vec<u64>) -> (v: u64)
    ensures
        is_largest(deltas@, v),
{
    let mut v: u64 = 0;
    let mut i: usize = 0;
    while i < deltas.len()
        invariant
            i <= deltas@.len(),
            forall|k: int| 0 <= k < i ==> #[trigger] deltas@[k] <= v,
            i == 0 ==> v == 0,
            i > 0 ==> exists|k: int| 0 <= k < i && deltas@[k] == v,
        decreases deltas@.len() - i,
    {
        let d: u64 = deltas[i];
        if i == 0 || d > v {
            v = d;
            assert(deltas@[i as int] == v);
        }
        i = i + 1;
    }
    v
}

proof fn lemma_matched_bound(deltas: Seq<u64>, threshold: u64)
    ensures
        matched(deltas, threshold) <= deltas.len(),
        (forall|i: int| 0 <= i < deltas.len() ==> #[trigger] deltas[i] <= threshold) ==> matched(
            deltas,
            threshold,
        ) == deltas.len(),
        matched(deltas, threshold) == deltas.len() ==> (forall|i: int|
            0 <= i < deltas.len() ==> #[trigger] deltas[i] <= threshold),
    decreases deltas.len(),
{
    if deltas.len() > 0 {
        let before = deltas.drop_last();
        lemma_matched_bound(before, threshold);
        if forall|i: int| 0 <= i < deltas.len() ==> #[trigger] deltas[i] <= threshold {
            assert forall|i: int| 0 <= i < before.len() implies #[trigger] before[i]
                <= threshold by {
                assert(before[i] == deltas[i]);
            }
        }
        if matched(deltas, threshold) == deltas.len() {
            assert forall|i: int| 0 <= i < deltas.len() implies #[trigger] deltas[i]
                <= threshold by {
                if i < before.len() {
                    assert(before[i] == deltas[i]);
                }
            }
        }
    }
}

/// Every pixel matches exactly when the largest difference is within the
/// threshold.
pub proof fn law_all_match_iff_the_largest_does(deltas: Seq<u64>, threshold: u64, top: u64)
    requires
        is_largest(deltas, top),
    ensures
        matched(deltas, threshold) <= deltas.len(),
        matched(deltas, threshold) == deltas.len() <==> top <= threshold,
{
    lemma_matched_bound(deltas, threshold);
    if deltas.len() > 0 {
        let i = choose|i: int| 0 <= i < deltas.len() && deltas[i] == top;
        assert(deltas[i] == top);
    }
}

/// A higher threshold never matches less.
pub proof fn law_a_higher_threshold_never_matches_less(deltas: Seq<u64>, low: u64, high: u64)
    requires
        low <= high,
    ensures
        matched(deltas, low) <= matched(deltas, high),
    decreases deltas.len(),
{
    if deltas.len() > 0 {
        law_a_higher_threshold_never_matches_less(deltas.drop_last(), low, high);
    }
}

/// The 95th percentile is one of the differences, so it is no larger than the
/// largest.
pub proof fn law_p95_is_at_most_the_largest(deltas: Seq<u64>, v: u64, top: u64)
    requires
        is_p95(deltas, v),
        is_largest(deltas, top),
    ensures
        v <= top,
{
    if deltas.len() > 0 {
        let order = choose|order: Seq<usize>| #[trigger]
            is_stable_order(ranks(deltas), order) && v == deltas[order[(19 * deltas.len()) as int
                / 20] as int];
        let k = (19 * deltas.len()) as int / 20;
        assert(0 <= k < deltas.len());
        assert(order[k] < ranks(deltas).len());
        assert(deltas[order[k] as int] <= top);
    }
}

/// Where nothing differs, every pixel matches at any threshold, and no difference
/// is reported.
pub proof fn law_no_difference_matches_everywhere(
    deltas: Seq<u64>,
    threshold: u64,
    v: u64,
    top: u64,
)
    requires
        forall|i: int| 0 <= i < deltas.len() ==> #[trigger] deltas[i] == 0,
        is_p95(deltas, v),
        is_largest(deltas, top),
    ensures
        matched(deltas, threshold) == deltas.len(),
        top == 0,
        v == 0,
{
    if deltas.len() > 0 {
        let i = choose|i: int| 0 <= i < deltas.len() && deltas[i] == top;
        assert(deltas[i] == 0);
    }
    law_p95_is_at_most_the_largest(deltas, v, top);
    lemma_matched_bound(deltas, threshold);
}

/// There is one 95th percentile only.
pub proof fn law_p95_is_unique(deltas: Seq<u64>, v: u64, w: u64)
    requires
        deltas.len() <= usize::MAX,
        is_p95(deltas, v),
        is_p95(deltas, w),
    ensures
        v == w,
{
    if deltas.len() > 0 {
        let k = (19 * deltas.len()) as int / 20;
        let a = choose|order: Seq<usize>| #[trigger]
            is_stable_order(ranks(deltas), order) && v == deltas[order[k] as int];
        let b = choose|order: Seq<usize>| #[trigger]
            is_stable_order(ranks(deltas), order) && w == deltas[order[k] as int];
        law_stable_order_is_unique(ranks(deltas), a, b);
    }
}

/// At least 19 in 20 of the differences, rounded down, are at or below the 95th
/// percentile, and those that follow it in ascending order are not below it.
pub proof fn law_p95_splits_the_differences(deltas: Seq<u64>, v: u64, order: Seq<usize>, k: int)
    requires
        is_p95(deltas, v),
        is_stable_order(ranks(deltas), order),
        0 <= k < deltas.len() <= usize::MAX,
    ensures
        k <= (19 * deltas.len()) as int / 20 ==> deltas[order[k] as int] <= v,
        k >= (19 * deltas.len()) as int / 20 ==> deltas[order[k] as int] >= v,
{
    let j = (19 * deltas.len()) as int / 20;
    let a = choose|order: Seq<usize>| #[trigger]
        is_stable_order(ranks(deltas), order) && v == deltas[order[j] as int];
    law_stable_order_is_unique(ranks(deltas), a, order);
    assert(0 <= order[k] < deltas.len() && 0 <= order[j] < deltas.len());
    if k < j {
        assert(sorts_before(ranks(deltas), order[k], order[j]));
    }
    if k > j {
        assert(sorts_before(ranks(deltas), order[j], order[k]));
    }
}

/// All of them added up.
pub open spec fn summed(values: Seq<u64>) -> nat
    decreases values.len(),
{
    if values.len() == 0 {
        0
    } else {
        summed(values.drop_last()) + values.last() as nat
    }
}

/// No sum is larger than that many times the largest: no mean is larger than it.
pub proof fn law_the_mean_is_at_most_the_largest(values: Seq<u64>, top: u64)
    requires
        forall|i: int| 0 <= i < values.len() ==> #[trigger] values[i] <= top,
    ensures
        summed(values) <= values.len() * top,
    decreases values.len(),
{
    if values.len() > 0 {
        let before = values.drop_last();
        assert forall|i: int| 0 <= i < before.len() implies #[trigger] before[i] <= top by {
            assert(before[i] == values[i]);
        }
        law_the_mean_is_at_most_the_largest(before, top);
        assert(values.last() == values[values.len() - 1]);
        let n = before.len();
        assert((n + 1) * top == n * top + top) by (nonlinear_arith);
    }
}

/// Add them up.
pub fn sum(values: &Vec<u64>) -> (total: u128)
    ensures
        total == summed(values@),
{
    let mut total: u128 = 0;
    let mut i: usize = 0;
    while i < values.len()
        invariant
            i <= values@.len(),
            total == summed(values@.take(i as int)),
            total <= i * u64::MAX,
        decreases values@.len() - i,
    {
        assert(values@.take(i + 1).drop_last() =~= values@.take(i as int));
        assert(i * u64::MAX <= u64::MAX * u64::MAX && (i + 1) * u64::MAX == i * u64::MAX
            + u64::MAX) by (nonlinear_arith)
            requires
                0 <= i <= u64::MAX,
        ;
        total = total + values[i] as u128;
        i = i + 1;
    }
    assert(values@.take(i as int) =~= values@);
    total
}

} // verus!
