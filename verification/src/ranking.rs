//! The ranking rule for traced results.

use crate::config::Billionths;
use crate::order::{rank_less, Rank};
use vstd::prelude::*;

verus! {

/// What a traced result is judged by.
#[derive(Clone, Copy, Debug, PartialEq, Eq, Structural)]
pub struct Score {
    /// Control points: on-curve anchors and off-curve handles.
    pub points: usize,
    /// Percentage of pixels within the perceptual threshold, in billionths.
    pub match_pct: Billionths,
    /// The match discounted by what its points cost, in any units that order
    /// alike.
    pub discounted: i64,
}

impl Score {
    /// The score can be put into a sort key.
    pub open spec fn wf(self) -> bool {
        self.points <= i64::MAX && self.match_pct > i64::MIN && self.discounted > i64::MIN
    }

    pub fn meets(&self, target: Billionths) -> (b: bool)
        ensures
            b == (self.match_pct >= target),
    {
        self.match_pct >= target
    }
}

/// `a` ranks before `b`.
///
/// Fidelity is a gate rather than a tradeable quantity: a result a viewer can
/// see is wrong does not become acceptable by being compact. Among results that
/// clear the bar, fewest control points wins, because every remaining
/// difference is invisible and only editability and file size are left to
/// distinguish them; a tie goes to the more accurate one. Where neither clears
/// it, accuracy is discounted by what it cost rather than pursued at any price,
/// and a tie goes to the one with fewer points.
///
/// The point budget is applied first, as a separate gate. Its job is to stop the
/// fallback -- used when nothing reaches the target -- from rewarding a result
/// that bought a couple of points of accuracy with tens of thousands of control
/// points.
pub open spec fn ranks_before(a: Score, b: Score, target: Billionths, budget: usize) -> bool {
    if (a.points <= budget) != (b.points <= budget) {
        a.points <= budget
    } else if (a.match_pct >= target) != (b.match_pct >= target) {
        a.match_pct >= target
    } else if a.match_pct >= target {
        a.points < b.points || (a.points == b.points && a.match_pct > b.match_pct)
    } else {
        a.discounted > b.discounted || (a.discounted == b.discounted && a.points < b.points)
    }
}

/// Neither ranks before the other.
pub open spec fn ranks_equal(a: Score, b: Score, target: Billionths, budget: usize) -> bool {
    !ranks_before(a, b, target, budget) && !ranks_before(b, a, target, budget)
}

/// A sort key that orders as the ranking rule does.
pub open spec fn score_rank(s: Score, target: Billionths, budget: usize) -> Rank {
    let over = if s.points <= budget {
        0i64
    } else {
        1
    };
    if s.match_pct >= target {
        Rank { first: over, second: 0, third: s.points as i64, fourth: (-s.match_pct) as i64 }
    } else {
        Rank { first: over, second: 1, third: (-s.discounted) as i64, fourth: s.points as i64 }
    }
}

pub fn rank_of(s: &Score, target: Billionths, budget: usize) -> (r: Rank)
    requires
        s.wf(),
    ensures
        r == score_rank(*s, target, budget),
{
    let over: i64 = if s.points <= budget {
        0
    } else {
        1
    };
    if s.meets(target) {
        Rank { first: over, second: 0, third: s.points as i64, fourth: -s.match_pct }
    } else {
        Rank { first: over, second: 1, third: -s.discounted, fourth: s.points as i64 }
    }
}

/// The sort key orders exactly as the ranking rule does.
pub proof fn law_key_orders_by_rank(a: Score, b: Score, target: Billionths, budget: usize)
    requires
        a.wf(),
        b.wf(),
    ensures
        rank_less(score_rank(a, target, budget), score_rank(b, target, budget)) == ranks_before(
            a,
            b,
            target,
            budget,
        ),
{
}

/// The ranking rule, stated once: whether `a` ranks before, with or after `b`.
pub fn better(a: &Score, b: &Score, target: Billionths, budget: usize) -> (o: std::cmp::Ordering)
    ensures
        ranks_before(*a, *b, target, budget) ==> o == std::cmp::Ordering::Less,
        ranks_before(*b, *a, target, budget) ==> o == std::cmp::Ordering::Greater,
        ranks_equal(*a, *b, target, budget) ==> o == std::cmp::Ordering::Equal,
{
    if is_better(a, b, target, budget) {
        std::cmp::Ordering::Less
    } else if is_better(b, a, target, budget) {
        std::cmp::Ordering::Greater
    } else {
        std::cmp::Ordering::Equal
    }
}

/// Whether `a` ranks before `b`.
pub fn is_better(a: &Score, b: &Score, target: Billionths, budget: usize) -> (r: bool)
    ensures
        r == ranks_before(*a, *b, target, budget),
{
    let a_ok: bool = a.points <= budget;
    let b_ok: bool = b.points <= budget;
    if a_ok != b_ok {
        // Both over budget falls through and ranks normally, so that a
        // pathological image still yields the least-bad answer.
        return a_ok;
    }
    let am: bool = a.meets(target);
    let bm: bool = b.meets(target);
    if am != bm {
        return am;
    }
    if am {
        a.points < b.points || (a.points == b.points && a.match_pct > b.match_pct)
    } else {
        a.discounted > b.discounted || (a.discounted == b.discounted && a.points < b.points)
    }
}

/// Ranking is a strict weak order: nothing ranks before itself or both before
/// and after another, and ranking before and ranking equal are both transitive.
pub proof fn law_ranking_is_consistent(
    a: Score,
    b: Score,
    c: Score,
    target: Billionths,
    budget: usize,
)
    ensures
        !ranks_before(a, a, target, budget),
        ranks_before(a, b, target, budget) ==> !ranks_before(b, a, target, budget),
        ranks_before(a, b, target, budget) && ranks_before(b, c, target, budget) ==> ranks_before(
            a,
            c,
            target,
            budget,
        ),
        ranks_equal(a, b, target, budget) && ranks_equal(b, c, target, budget) ==> ranks_equal(
            a,
            c,
            target,
            budget,
        ),
{
}

/// A result within the budget ranks before every result beyond it, however
/// accurate that one is.
pub proof fn law_budget_is_a_gate(a: Score, b: Score, target: Billionths, budget: usize)
    requires
        a.points <= budget,
        b.points > budget,
    ensures
        ranks_before(a, b, target, budget),
{
}

/// Of two results within the budget, one that meets the target ranks before one
/// that does not, however compact that one is.
pub proof fn law_fidelity_is_a_gate(a: Score, b: Score, target: Billionths, budget: usize)
    requires
        a.points <= budget,
        b.points <= budget,
        a.match_pct >= target,
        b.match_pct < target,
    ensures
        ranks_before(a, b, target, budget),
{
}

/// Of two results that meet the target within the budget, the one with fewer
/// points ranks first, however much more accurate the other is.
pub proof fn law_fewest_points_win(a: Score, b: Score, target: Billionths, budget: usize)
    requires
        a.points < b.points,
        b.points <= budget,
        a.match_pct >= target,
        b.match_pct >= target,
    ensures
        ranks_before(a, b, target, budget),
{
}

/// Of two results that meet the target with as many points, the more accurate one ranks
/// first, within the budget or beyond it.
pub proof fn law_ties_go_to_the_more_accurate(
    a: Score,
    b: Score,
    target: Billionths,
    budget: usize,
)
    requires
        a.points == b.points,
        b.match_pct >= target,
        a.match_pct > b.match_pct,
    ensures
        ranks_before(a, b, target, budget),
{
}

/// Of two results on one side of the budget that both miss the target, the one with the
/// higher discounted accuracy ranks first, and of equals the one with fewer points.
pub proof fn law_misses_are_ranked_by_what_they_cost(
    a: Score,
    b: Score,
    target: Billionths,
    budget: usize,
)
    requires
        a.match_pct < target,
        b.match_pct < target,
        a.points <= budget <==> b.points <= budget,
        a.discounted > b.discounted || (a.discounted == b.discounted && a.points < b.points),
    ensures
        ranks_before(a, b, target, budget),
        !ranks_before(b, a, target, budget),
{
}

} // verus!
