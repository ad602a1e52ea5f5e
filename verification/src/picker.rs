//! Automatic algorithm selection: a search run to its end.
//!
//! Choosing tracing parameters by hand means guessing, then squinting at the
//! result. The picker does the obvious thing instead: it runs the candidates and
//! measures them.

use crate::auto::{
    ahead, all_scored, all_wf, candidates_keyed, candidates_of, is_ranked, keyed_seeds,
    law_every_candidate_is_keyed, law_every_report_makes_progress, law_nothing_found_is_lost,
    law_seeds_are_keyed, listed, moved, ranks_of, scored, search_keyed, steps, steps_with, trial_of,
    without_repeats, Candidate, CandidateView, Outcome, Plan, Search, SearchView, Stage,
};
use crate::color::Rgba8;
use crate::config::{Billionths, Settings};
use crate::order::{is_stable_order, sorts_before};
use crate::profile::ImageProfile;
use crate::ranking::{law_key_orders_by_rank, ranks_before};
use crate::search::{trials_of, Trial, TrialView};
use vstd::prelude::*;

verus! {

/// A search, state by state, and the results that led from each to the next.
pub ghost struct History {
    pub states: Seq<SearchView>,
    pub results: Seq<Seq<Option<Outcome>>>,
}

/// `results` are an answer of `evaluate` to the trials of a batch, each measured at
/// full resolution or not.
pub open spec fn answers<E: Fn(&Vec<Trial>, bool, usize) -> Vec<Option<Outcome>>>(
    evaluate: E,
    batch: Seq<TrialView>,
    full: bool,
    total: usize,
    results: Seq<Option<Outcome>>,
) -> bool {
    exists|asked: Vec<Trial>, out: Vec<Option<Outcome>>| #[trigger]
        evaluate.ensures((&asked, full, total), out) && trials_of(asked@) == batch && out@ == results
}

/// `h` is a search from `first` on: every state follows from the one before and
/// from what `evaluate` made of its batch.
pub open spec fn is_history<E: Fn(&Vec<Trial>, bool, usize) -> Vec<Option<Outcome>>>(
    evaluate: E,
    total: usize,
    first: SearchView,
    h: History,
) -> bool {
    &&& h.states.len() == h.results.len() + 1
    &&& h.states[0] == first
    &&& forall|r: int|
        0 <= r < h.results.len() ==> {
            &&& answers(
                evaluate,
                h.states[r].batch,
                h.states[r].stage == Stage::Rescore,
                total,
                #[trigger] h.results[r],
            )
            &&& h.results[r].len() == h.states[r].batch.len()
            &&& all_scored(h.results[r])
            &&& h.states[r].wf()
            &&& h.states[r].stage != Stage::Finished
            &&& steps(h.states[r], h.results[r], h.states[r + 1])
        }
}

/// Whether trial `k` of round `r` was scored while searching.
pub open spec fn was_found(h: History, r: int, k: int) -> bool {
    &&& 0 <= r < h.results.len()
    &&& 0 <= k < h.results[r].len()
    &&& h.results[r][k] is Some
    &&& h.states[r].stage != Stage::Rescore
}

/// Whether settings could not be measured again at full resolution.
pub open spec fn was_lost(h: History, settings: Settings) -> bool {
    exists|k: int| #[trigger] was_refused(h, k, settings)
}

pub open spec fn was_refused(h: History, k: int, settings: Settings) -> bool {
    let last = h.results.len() - 1;
    &&& h.states[last].stage == Stage::Rescore
    &&& 0 <= k < h.results[last].len()
    &&& h.results[last][k] is None
    &&& h.states[last].batch[k].settings == settings
}

/// Every settings that were scored are held at the end, but for those that could
/// not be measured again.
pub open spec fn loses_nothing(h: History) -> bool {
    forall|r: int, k: int| #[trigger]
        was_found(h, r, k) ==> h.states.last().holds(h.states[r].batch[k].settings) || was_lost(
            h,
            h.states[r].batch[k].settings,
        )
}

/// Nothing ranks before what stands ahead of it.
pub open spec fn in_order(cs: Seq<CandidateView>, target: Billionths, budget: usize) -> bool {
    forall|k: int, l: int|
        0 <= k < l < cs.len() ==> !ranks_before(
            (#[trigger] cs[l]).score,
            (#[trigger] cs[k]).score,
            target,
            budget,
        )
}

/// The state that a search starts in.
pub open spec fn opening(
    p: ImageProfile,
    max_seeds: usize,
    colors: Seq<Rgba8>,
    tolerance: Billionths,
    plan: Plan,
) -> SearchView {
    SearchView {
        plan,
        stage: Stage::Seeds,
        batch: keyed_seeds(p, max_seeds, colors, tolerance),
        candidates: Seq::empty(),
        refined: Seq::empty(),
        starting: Seq::empty(),
        which: 0,
        descent: None,
    }
}

/// How many trials a search is expected to take.
pub open spec fn expected(first: SearchView) -> int {
    first.batch.len() + first.plan.refine_top * first.plan.refine_rounds * 12
}

/// Search for the best configuration. Returns every candidate tried, best first.
/// Where the search runs on a downscaled copy, each is measured again at full
/// resolution, and one that cannot be is left out.
///
/// `evaluate` traces and scores a batch of trials. It is told whether to do so at
/// full resolution, and how many trials there may be in all.
pub fn auto_select<E: Fn(&Vec<Trial>, bool, usize) -> Vec<Option<Outcome>>>(
    evaluate: &E,
    profile: &ImageProfile,
    max_seeds: usize,
    transparent_colors: &Vec<Rgba8>,
    transparent_tolerance: Billionths,
    plan: Plan,
) -> (candidates: Vec<Candidate>)
    requires
        forall|batch: &Vec<Trial>, full: bool, total: usize|
            #[trigger] evaluate.requires((batch, full, total)),
        forall|batch: &Vec<Trial>, full: bool, total: usize, out: Vec<Option<Outcome>>| #[trigger]
            evaluate.ensures((batch, full, total), out) ==> out@.len() == batch@.len()
                && all_scored(out@),
        expected(
            opening(*profile, max_seeds, transparent_colors@, transparent_tolerance, plan),
        ) <= usize::MAX,
    ensures
        ({
            let first = opening(
                *profile,
                max_seeds,
                transparent_colors@,
                transparent_tolerance,
                plan,
            );
            exists|h: History| #[trigger]
                is_history(*evaluate, expected(first) as usize, first, h) && h.states.last().stage
                    == Stage::Finished && h.states.last().candidates == candidates_of(candidates@)
                    && h.states.last().refined.len() == 0 && loses_nothing(h)
        }),
        in_order(candidates_of(candidates@), plan.target, plan.budget),
        candidates_keyed(
            candidates_of(candidates@),
            transparent_colors@,
            transparent_tolerance,
        ),
{
    let mut search: Search = Search::new(
        profile,
        max_seeds,
        transparent_colors,
        transparent_tolerance,
        plan,
    );
    let ghost first = search@;
    let ghost colors = transparent_colors@;
    assert(first == opening(*profile, max_seeds, colors, transparent_tolerance, plan));
    assert(first.batch.len() == search.batch@.len());
    let total: usize = search.estimate();
    let ghost mut h: History = History { states: seq![first], results: seq![] };
    proof {
        law_seeds_are_keyed(*profile, max_seeds, colors, transparent_tolerance);
        assert(search_keyed(first, colors, transparent_tolerance));
        assert(in_order(first.candidates, plan.target, plan.budget));
    }
    while !search.is_finished()
        invariant
            forall|batch: &Vec<Trial>, full: bool, total: usize|
                #[trigger] evaluate.requires((batch, full, total)),
            forall|batch: &Vec<Trial>, full: bool, total: usize, out: Vec<Option<Outcome>>|
                #[trigger]
                evaluate.ensures((batch, full, total), out) ==> out@.len() == batch@.len()
                    && all_scored(out@),
            search@.wf(),
            search@.plan == plan,
            total == expected(first),
            is_history(*evaluate, total, first, h),
            h.states.last() == search@,
            search_keyed(search@, colors, transparent_tolerance),
            in_order(search@.candidates, plan.target, plan.budget),
            loses_nothing(h),
            search@.stage != Stage::Finished ==> finds_nothing_lost(h),
        decreases
            ahead(search@).stages,
            ahead(search@).seeds,
            ahead(search@).rounds,
            ahead(search@).axes,
    {
        let ghost v = search@;
        let full: bool = match search.stage {
            Stage::Rescore => true,
            _ => false,
        };
        let results: Vec<Option<Outcome>> = evaluate(&search.batch, full, total);
        proof {
            let asked = search.batch;
            assert(evaluate.ensures((&asked, full, total), results));
            assert(answers(*evaluate, v.batch, full, total, results@));
            assert(results@.len() == v.batch.len());
        }
        search.report(&results);
        proof {
            let w = search@;
            law_every_report_makes_progress(v, results@, w);
            law_every_candidate_is_keyed(v, results@, w, colors, transparent_tolerance);
            lemma_stays_in_order(v, results@, w);
            let more = History { states: h.states.push(w), results: h.results.push(results@) };
            assert(is_history(*evaluate, total, first, more)) by {
                assert forall|r: int| 0 <= r < more.results.len() implies {
                    &&& answers(
                        *evaluate,
                        more.states[r].batch,
                        more.states[r].stage == Stage::Rescore,
                        total,
                        #[trigger] more.results[r],
                    )
                    &&& more.results[r].len() == more.states[r].batch.len()
                    &&& all_scored(more.results[r])
                    &&& more.states[r].wf()
                    &&& more.states[r].stage != Stage::Finished
                    &&& steps(more.states[r], more.results[r], more.states[r + 1])
                } by {
                    if r < h.results.len() {
                        assert(more.results[r] == h.results[r]);
                        assert(more.states[r] == h.states[r]);
                        assert(more.states[r + 1] == h.states[r + 1]);
                    } else {
                        assert(more.states[r] == v);
                        assert(more.states[r + 1] == w);
                    }
                }
            }
            lemma_loses_nothing(h, more, results@, w);
            h = more;
        }
    }
    proof {
        assert(total == expected(first) as usize);
        assert(is_history(*evaluate, expected(first) as usize, first, h));
        assert(h.states.last().candidates == candidates_of(search.candidates@));
    }
    search.candidates
}

/// Everything that was scored so far is held.
spec fn finds_nothing_lost(h: History) -> bool {
    forall|r: int, k: int| #[trigger]
        was_found(h, r, k) ==> h.states.last().holds(h.states[r].batch[k].settings)
}

proof fn lemma_loses_nothing(
    h: History,
    more: History,
    results: Seq<Option<Outcome>>,
    w: SearchView,
)
    requires
        h.states.len() == h.results.len() + 1,
        more == (History { states: h.states.push(w), results: h.results.push(results) }),
        h.states.last().wf(),
        h.states.last().stage != Stage::Finished,
        results.len() == h.states.last().batch.len(),
        steps(h.states.last(), results, w),
        finds_nothing_lost(h),
    ensures
        loses_nothing(more),
        w.stage != Stage::Finished ==> finds_nothing_lost(more),
{
    let v = h.states.last();
    let n = h.results.len() as int;
    law_nothing_found_is_lost(v, results, w);
    assert(more.states[n] == v && more.results[n] == results && more.states.last() == w);
    assert forall|r: int, k: int| #[trigger] was_found(more, r, k) implies w.holds(
        more.states[r].batch[k].settings,
    ) || (v.stage == Stage::Rescore && was_lost(more, more.states[r].batch[k].settings)) by {
        let s = more.states[r].batch[k].settings;
        if r < n {
            assert(more.states[r] == h.states[r] && more.results[r] == h.results[r]);
            assert(was_found(h, r, k));
            assert(v.holds(s));
            if v.stage == Stage::Rescore {
                assert(listed(v.candidates, s));
                let q = choose|q: int| 0 <= q < v.candidates.len() && (
                #[trigger] v.candidates[q]).settings == s;
                assert(v.batch[q] == trial_of(v.candidates[q]));
                if results[q] is None {
                    assert(was_refused(more, q, s));
                } else {
                    assert(w.holds(v.batch[q].settings));
                }
            } else {
                assert(w.holds(s));
            }
        } else {
            assert(results[k] is Some);
        }
    }
    if v.stage == Stage::Rescore {
        assert(w.stage == Stage::Finished);
    }
}

proof fn lemma_ranked_in_order(
    cs: Seq<CandidateView>,
    out: Seq<CandidateView>,
    target: Billionths,
    budget: usize,
)
    requires
        is_ranked(cs, out, target, budget),
        all_wf(cs),
    ensures
        in_order(out, target, budget),
{
    let ranks = ranks_of(cs, target, budget);
    let order = choose|order: Seq<usize>| #[trigger]
        is_stable_order(ranks, order) && out == Seq::new(order.len(), |k: int| cs[order[k] as int]);
    assert forall|k: int, l: int| 0 <= k < l < out.len() implies !ranks_before(
        (#[trigger] out[l]).score,
        (#[trigger] out[k]).score,
        target,
        budget,
    ) by {
        assert(sorts_before(ranks, order[k], order[l]));
        assert(out[k] == cs[order[k] as int] && out[l] == cs[order[l] as int]);
        law_key_orders_by_rank(out[l].score, out[k].score, target, budget);
        law_key_orders_by_rank(out[k].score, out[l].score, target, budget);
    }
}

/// Dropping repeats keeps the order, and ends with what stood last or something
/// before it.
proof fn lemma_repeats_in_order(cs: Seq<CandidateView>, target: Billionths, budget: usize)
    requires
        in_order(cs, target, budget),
    ensures
        in_order(without_repeats(cs), target, budget),
        forall|k: int| 0 <= k < without_repeats(cs).len() ==> cs.contains(
            #[trigger] without_repeats(cs)[k],
        ),
    decreases cs.len(),
{
    if cs.len() > 0 {
        let less = cs.drop_last();
        let rest = without_repeats(less);
        let out = without_repeats(cs);
        assert(in_order(less, target, budget)) by {
            assert forall|k: int, l: int| 0 <= k < l < less.len() implies !ranks_before(
                (#[trigger] less[l]).score,
                (#[trigger] less[k]).score,
                target,
                budget,
            ) by {
                assert(less[l] == cs[l] && less[k] == cs[k]);
            }
        }
        lemma_repeats_in_order(less, target, budget);
        assert forall|k: int| 0 <= k < out.len() implies cs.contains(#[trigger] out[k]) by {
            if k < rest.len() {
                assert(out[k] == rest[k]);
                assert(less.contains(rest[k]));
                let q = choose|q: int| 0 <= q < less.len() && less[q] == rest[k];
                assert(cs[q] == out[k]);
            } else {
                assert(out[k] == cs[cs.len() - 1]);
            }
        }
        assert forall|k: int, l: int| 0 <= k < l < out.len() implies !ranks_before(
            (#[trigger] out[l]).score,
            (#[trigger] out[k]).score,
            target,
            budget,
        ) by {
            assert(out[k] == rest[k]);
            if l < rest.len() {
                assert(out[l] == rest[l]);
            } else {
                assert(out[l] == cs[cs.len() - 1]);
                assert(less.contains(rest[k]));
                let q = choose|q: int| 0 <= q < less.len() && less[q] == rest[k];
                assert(cs[q] == rest[k]);
            }
        }
    }
}

proof fn lemma_scores_fit(batch: Seq<TrialView>, results: Seq<Option<Outcome>>, k: int)
    requires
        all_scored(results),
        0 <= k <= results.len(),
    ensures
        all_wf(scored(batch, results, k)),
    decreases k,
{
    if k > 0 {
        lemma_scores_fit(batch, results, k - 1);
        assert(results[k - 1] matches Some(o) ==> o.score.wf());
    }
}

proof fn lemma_ranked_fit(
    cs: Seq<CandidateView>,
    out: Seq<CandidateView>,
    target: Billionths,
    budget: usize,
)
    requires
        is_ranked(cs, out, target, budget),
        all_wf(cs),
    ensures
        all_wf(out),
{
    let ranks = ranks_of(cs, target, budget);
    let order = choose|order: Seq<usize>| #[trigger]
        is_stable_order(ranks, order) && out == Seq::new(order.len(), |k: int| cs[order[k] as int]);
    assert forall|k: int| 0 <= k < out.len() implies (#[trigger] out[k]).score.wf() by {
        assert(order[k] < ranks.len());
        assert(cs[order[k] as int].score.wf());
    }
}

/// The candidates of a search are in ranking order at every step.
proof fn lemma_stays_in_order(v: SearchView, results: Seq<Option<Outcome>>, w: SearchView)
    requires
        v.wf(),
        all_scored(results),
        steps(v, results, w),
        in_order(v.candidates, v.plan.target, v.plan.budget),
    ensures
        in_order(w.candidates, v.plan.target, v.plan.budget),
        w.plan == v.plan,
{
    let target = v.plan.target;
    let budget = v.plan.budget;
    let found = scored(v.batch, results, results.len() as int);
    lemma_scores_fit(v.batch, results, results.len() as int);
    let sorted = choose|sorted: Seq<CandidateView>| #[trigger]
        is_ranked(found, sorted, target, budget) && steps_with(v, results, sorted, w);
    lemma_ranked_in_order(found, sorted, target, budget);
    lemma_ranked_fit(found, sorted, target, budget);
    if v.stage == Stage::Refine {
        let d = moved(v.descent->0, sorted, v.plan);
        let refined = v.refined + found;
        let list = v.candidates + refined.push(d.current);
        assert(d.current.score.wf()) by {
            if sorted.len() > 0 {
                assert(sorted[0].score.wf());
            }
        }
        assert(all_wf(list)) by {
            assert forall|k: int| 0 <= k < list.len() implies (#[trigger] list[k]).score.wf() by {
                let n = v.candidates.len();
                if k < n {
                    assert(list[k] == v.candidates[k]);
                } else if k - n < v.refined.len() {
                    assert(list[k] == v.refined[k - n]);
                } else if k - n < refined.len() {
                    assert(list[k] == found[k - n - v.refined.len()]);
                } else {
                    assert(list[k] == d.current);
                }
            }
        }
        assert forall|all: Seq<CandidateView>| #[trigger]
            is_ranked(list, all, target, budget) implies in_order(
            without_repeats(all),
            target,
            budget,
        ) by {
            lemma_ranked_in_order(list, all, target, budget);
            lemma_repeats_in_order(all, target, budget);
        }
    }
}

} // verus!
