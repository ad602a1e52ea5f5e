//! The search for the best tracing parameters, as a machine that hands out
//! batches of trials and is told how they scored.
//!
//! The ranking is the criterion stated up front, applied literally: among
//! candidates that hit the fidelity target, the one with the fewest control
//! points wins. On large inputs the search runs on a downscaled copy for speed,
//! and what it found is then re-measured at full resolution, so that every number
//! reported is measured on the real image.

use crate::color::Rgba8;
use crate::config::{copy_colors, Billionths, SegmentSettings, Settings, VectorizeConfig};
use crate::order::{is_stable_order, sorts_before, stable_order, Rank};
use crate::profile::ImageProfile;
use crate::ranking::{is_better, law_key_orders_by_rank, rank_of, ranks_before, score_rank, Score};
use crate::search::{
    axes_for, axes_of, refinement_axes, seed_configs, seed_count, seed_list, trials_of, Axis,
    AxisView, Trial, TrialView,
};
use crate::text::push_text;
use vstd::prelude::*;

verus! {

/// A traced and scored configuration. `id` is the caller's handle on the rest of
/// what it measured.
pub struct Candidate {
    pub label: String,
    pub config: VectorizeConfig,
    pub score: Score,
    pub id: usize,
}

/// What a [`Candidate`] says.
pub ghost struct CandidateView {
    pub label: Seq<char>,
    pub settings: Settings,
    pub score: Score,
    pub id: usize,
}

impl View for Candidate {
    type V = CandidateView;

    open spec fn view(&self) -> CandidateView {
        CandidateView {
            label: self.label@,
            settings: self.config@,
            score: self.score,
            id: self.id,
        }
    }
}

pub open spec fn candidates_of(v: Seq<Candidate>) -> Seq<CandidateView> {
    Seq::new(v.len(), |i: int| v[i]@)
}

fn copy_label(s: &String) -> (c: String)
    ensures
        c@ == s@,
{
    let mut c: String = String::new();
    push_text(&mut c, s.as_str());
    assert(c@ =~= s@);
    c
}

impl Candidate {
    pub fn points(&self) -> (n: usize)
        ensures
            n == self.score.points,
    {
        self.score.points
    }

    fn duplicate(&self) -> (c: Candidate)
        ensures
            c@ == self@,
    {
        Candidate {
            label: copy_label(&self.label),
            config: self.config.duplicate(),
            score: self.score,
            id: self.id,
        }
    }

    fn as_trial(&self) -> (t: Trial)
        ensures
            t@ == trial_of(self@),
    {
        Trial { label: copy_label(&self.label), config: self.config.duplicate() }
    }
}

/// The trial that measures a candidate again.
pub open spec fn trial_of(c: CandidateView) -> TrialView {
    TrialView { label: c.label, settings: c.settings }
}

/// How one trial came out.
#[derive(Clone, Copy, Debug)]
pub struct Outcome {
    pub score: Score,
    pub id: usize,
}

/// The candidates that come of the first `k` trials; a trial that could not be
/// scored gives none.
pub open spec fn scored(
    batch: Seq<TrialView>,
    results: Seq<Option<Outcome>>,
    k: int,
) -> Seq<CandidateView>
    decreases k,
{
    if k <= 0 {
        Seq::empty()
    } else {
        let rest = scored(batch, results, k - 1);
        match results[k - 1] {
            Some(o) => rest.push(
                CandidateView {
                    label: batch[k - 1].label,
                    settings: batch[k - 1].settings,
                    score: o.score,
                    id: o.id,
                },
            ),
            None => rest,
        }
    }
}

pub open spec fn all_scored(results: Seq<Option<Outcome>>) -> bool {
    forall|k: int|
        0 <= k < results.len() ==> (#[trigger] results[k] matches Some(o) ==> o.score.wf())
}

pub open spec fn all_wf(cs: Seq<CandidateView>) -> bool {
    forall|k: int| 0 <= k < cs.len() ==> (#[trigger] cs[k]).score.wf()
}

proof fn lemma_scored_wf(batch: Seq<TrialView>, results: Seq<Option<Outcome>>, k: int)
    requires
        all_scored(results),
        0 <= k <= results.len(),
    ensures
        all_wf(scored(batch, results, k)),
    decreases k,
{
    if k > 0 {
        lemma_scored_wf(batch, results, k - 1);
        assert(results[k - 1] matches Some(o) ==> o.score.wf());
    }
}

fn collect(batch: &Vec<Trial>, results: &Vec<Option<Outcome>>) -> (out: Vec<Candidate>)
    requires
        batch@.len() == results@.len(),
    ensures
        candidates_of(out@) == scored(trials_of(batch@), results@, results@.len() as int),
{
    let ghost trials = trials_of(batch@);
    let mut out: Vec<Candidate> = Vec::new();
    let mut k: usize = 0;
    assert(candidates_of(out@) =~= scored(trials, results@, 0));
    while k < results.len()
        invariant
            k <= results@.len(),
            trials == trials_of(batch@),
            batch@.len() == results@.len(),
            candidates_of(out@) == scored(trials, results@, k as int),
        decreases results@.len() - k,
    {
        let ghost before = out@;
        match results[k] {
            Some(o) => {
                let c = Candidate {
                    label: copy_label(&batch[k].label),
                    config: batch[k].config.duplicate(),
                    score: o.score,
                    id: o.id,
                };
                out.push(c);
                assert(trials[k as int] == batch@[k as int]@);
                assert(candidates_of(out@) =~= candidates_of(before).push(c@));
            },
            None => {},
        }
        k = k + 1;
    }
    out
}

// ---- Ranking a list -----------------------------------------------------

pub open spec fn ranks_of(cs: Seq<CandidateView>, target: Billionths, budget: usize) -> Seq<Rank> {
    Seq::new(cs.len(), |i: int| score_rank(cs[i].score, target, budget))
}

/// `out` is `cs` in ranking order, equals in the order they came.
pub open spec fn is_ranked(
    cs: Seq<CandidateView>,
    out: Seq<CandidateView>,
    target: Billionths,
    budget: usize,
) -> bool {
    &&& cs.len() <= usize::MAX
    &&& exists|order: Seq<usize>| #[trigger]
        is_stable_order(ranks_of(cs, target, budget), order) && out == Seq::new(
            order.len(),
            |k: int| cs[order[k] as int],
        )
}

/// Ranking loses no settings.
proof fn lemma_ranked_listed(
    cs: Seq<CandidateView>,
    out: Seq<CandidateView>,
    target: Billionths,
    budget: usize,
    settings: Settings,
)
    requires
        is_ranked(cs, out, target, budget),
        listed(cs, settings),
    ensures
        listed(out, settings),
{
    let ranks = ranks_of(cs, target, budget);
    let order = choose|order: Seq<usize>| #[trigger]
        is_stable_order(ranks, order) && out == Seq::new(order.len(), |k: int| cs[order[k] as int]);
    let i = choose|i: int| 0 <= i < cs.len() && (#[trigger] cs[i]).settings == settings;
    assert(order.contains(i as usize));
    let k = choose|k: int| 0 <= k < order.len() && order[k] == i as usize;
    assert(out[k] == cs[i]);
}

/// In a ranked list nothing ranks before what stands ahead of it; the first is
/// the best there is.
pub proof fn law_ranked_lists_are_in_order(
    cs: Seq<CandidateView>,
    out: Seq<CandidateView>,
    target: Billionths,
    budget: usize,
)
    requires
        is_ranked(cs, out, target, budget),
        all_wf(cs),
    ensures
        out.len() == cs.len(),
        forall|k: int, l: int|
            0 <= k < l < out.len() ==> !ranks_before(
                (#[trigger] out[l]).score,
                (#[trigger] out[k]).score,
                target,
                budget,
            ),
        forall|i: int| 0 <= i < cs.len() ==> out.contains(#[trigger] cs[i]),
        forall|k: int| 0 <= k < out.len() ==> cs.contains(#[trigger] out[k]),
{
    let ranks = ranks_of(cs, target, budget);
    let order = choose|order: Seq<usize>| #[trigger]
        is_stable_order(ranks, order) && out == Seq::new(order.len(), |k: int| cs[order[k] as int]);
    assert forall|k: int, l: int| 0 <= k < l < out.len() implies !ranks_before(
        (#[trigger] out[l]).score,
        (#[trigger] out[k]).score,
        target,
        budget,
    ) by {
        assert(sorts_before(ranks, order[k], order[l]));
        assert(out[k] == cs[order[k] as int] && out[l] == cs[order[l] as int]);
        law_key_orders_by_rank(out[l].score, out[k].score, target, budget);
        law_key_orders_by_rank(out[k].score, out[l].score, target, budget);
    }
    assert forall|i: int| 0 <= i < cs.len() implies out.contains(#[trigger] cs[i]) by {
        assert(order.contains(i as usize));
        let k = choose|k: int| 0 <= k < order.len() && order[k] == i as usize;
        assert(out[k] == cs[i]);
    }
    assert forall|k: int| 0 <= k < out.len() implies cs.contains(#[trigger] out[k]) by {
        assert(order[k] < ranks.len());
        assert(cs[order[k] as int] == out[k]);
    }
}

fn sort_candidates(cs: &Vec<Candidate>, target: Billionths, budget: usize) -> (out: Vec<Candidate>)
    requires
        all_wf(candidates_of(cs@)),
    ensures
        is_ranked(candidates_of(cs@), candidates_of(out@), target, budget),
        out@.len() == cs@.len(),
        all_wf(candidates_of(out@)),
{
    let ghost views = candidates_of(cs@);
    let n: usize = cs.len();
    assert(views.len() == n);
    let mut keys: Vec<Rank> = Vec::new();
    let mut k: usize = 0;
    while k < n
        invariant
            k <= n,
            n == cs@.len(),
            views == candidates_of(cs@),
            all_wf(views),
            keys@.len() == k,
            forall|j: int| 0 <= j < k ==> #[trigger] keys@[j] == ranks_of(views, target, budget)[j],
        decreases cs@.len() - k,
    {
        assert(views[k as int].score.wf());
        keys.push(rank_of(&cs[k].score, target, budget));
        k = k + 1;
    }
    assert(keys@ =~= ranks_of(views, target, budget));
    let order: Vec<usize> = stable_order(&keys);
    let mut out: Vec<Candidate> = Vec::new();
    let mut k: usize = 0;
    while k < order.len()
        invariant
            k <= order@.len(),
            views == candidates_of(cs@),
            keys@.len() == cs@.len(),
            is_stable_order(keys@, order@),
            out@.len() == k,
            forall|j: int| 0 <= j < k ==> (#[trigger] out@[j])@ == views[order@[j] as int],
        decreases order@.len() - k,
    {
        assert(order@[k as int] < keys@.len());
        assert(views[order@[k as int] as int] == cs@[order@[k as int] as int]@);
        out.push(cs[order[k]].duplicate());
        k = k + 1;
    }
    proof {
        let o = candidates_of(out@);
        assert(o =~= Seq::new(order@.len(), |k: int| views[order@[k] as int]));
        assert(is_stable_order(ranks_of(views, target, budget), order@));
        assert forall|k: int| 0 <= k < o.len() implies (#[trigger] o[k]).score.wf() by {
            assert(order@[k] < keys@.len());
            assert(views[order@[k] as int].score.wf());
        }
    }
    out
}

/// Whether one of the candidates has these settings.
pub open spec fn listed(cs: Seq<CandidateView>, settings: Settings) -> bool {
    exists|k: int| 0 <= k < cs.len() && (#[trigger] cs[k]).settings == settings
}

/// The list without entries that have the settings of one kept before: identical
/// configurations can be reached by different paths.
pub open spec fn without_repeats(cs: Seq<CandidateView>) -> Seq<CandidateView>
    decreases cs.len(),
{
    if cs.len() == 0 {
        cs
    } else {
        let rest = without_repeats(cs.drop_last());
        if listed(rest, cs.last().settings) {
            rest
        } else {
            rest.push(cs.last())
        }
    }
}

fn drop_repeats(cs: &Vec<Candidate>) -> (out: Vec<Candidate>)
    ensures
        candidates_of(out@) == without_repeats(candidates_of(cs@)),
{
    let ghost views = candidates_of(cs@);
    let mut out: Vec<Candidate> = Vec::new();
    let mut k: usize = 0;
    assert(candidates_of(out@) =~= views.take(0));
    while k < cs.len()
        invariant
            k <= cs@.len(),
            views == candidates_of(cs@),
            candidates_of(out@) == without_repeats(views.take(k as int)),
        decreases cs@.len() - k,
    {
        let ghost before = out@;
        proof {
            assert(views.take(k + 1).drop_last() =~= views.take(k as int));
            assert(views.take(k + 1).last() == cs@[k as int]@);
        }
        let c: &Candidate = &cs[k];
        let mut at: usize = 0;
        while at < out.len() && !c.config.says(&out[at].config)
            invariant
                at <= out@.len(),
                forall|j: int|
                    0 <= j < at ==> (#[trigger] candidates_of(out@)[j]).settings != c.config@,
            decreases out@.len() - at,
        {
            assert(candidates_of(out@)[at as int].settings == out@[at as int].config@);
            at = at + 1;
        }
        assert(listed(candidates_of(out@), c@.settings) <==> at < out@.len()) by {
            if at < out@.len() {
                assert(candidates_of(out@)[at as int].settings == c.config@);
            }
        }
        if at == out.len() {
            let d: Candidate = c.duplicate();
            out.push(d);
            assert(candidates_of(out@) =~= candidates_of(before).push(d@));
        }
        k = k + 1;
    }
    assert(views.take(k as int) =~= views);
    out
}

/// Dropping repeats loses no settings, and leaves no two candidates with the
/// same.
pub proof fn law_dropping_repeats_loses_no_settings(cs: Seq<CandidateView>)
    ensures
        forall|i: int|
            0 <= i < cs.len() ==> listed(without_repeats(cs), (#[trigger] cs[i]).settings),
        forall|i: int, j: int|
            0 <= i < j < without_repeats(cs).len() ==> (#[trigger] without_repeats(cs)[i]).settings
                != (#[trigger] without_repeats(cs)[j]).settings,
    decreases cs.len(),
{
    if cs.len() > 0 {
        let less = cs.drop_last();
        let rest = without_repeats(less);
        let out = without_repeats(cs);
        law_dropping_repeats_loses_no_settings(less);
        assert forall|i: int| 0 <= i < cs.len() implies listed(
            out,
            (#[trigger] cs[i]).settings,
        ) by {
            if i < less.len() {
                assert(less[i] == cs[i]);
                let k = choose|k: int| 0 <= k < rest.len() && (#[trigger] rest[k]).settings
                    == cs[i].settings;
                assert(out[k] == rest[k]);
            } else if !listed(rest, cs[i].settings) {
                assert(out[rest.len() as int] == cs[i]);
            }
        }
        assert forall|i: int, j: int| 0 <= i < j < out.len() implies (#[trigger] out[i]).settings
            != (#[trigger] out[j]).settings by {
            assert(out[i] == rest[i]);
            if j < rest.len() {
                assert(out[j] == rest[j]);
            }
        }
    }
}

proof fn lemma_without_repeats_wf(cs: Seq<CandidateView>)
    requires
        all_wf(cs),
    ensures
        all_wf(without_repeats(cs)),
        without_repeats(cs).len() <= cs.len(),
    decreases cs.len(),
{
    if cs.len() > 0 {
        assert(all_wf(cs.drop_last())) by {
            assert forall|k: int| 0 <= k < cs.drop_last().len() implies (
            #[trigger] cs.drop_last()[k]).score.wf() by {
                assert(cs[k].score.wf());
            }
        }
        lemma_without_repeats_wf(cs.drop_last());
        assert(cs[cs.len() - 1].score.wf());
    }
}

/// Dropping repeats keeps the best candidate.
pub proof fn law_dropping_repeats_keeps_the_first(cs: Seq<CandidateView>)
    requires
        cs.len() > 0,
    ensures
        without_repeats(cs).len() > 0,
        without_repeats(cs)[0] == cs[0],
    decreases cs.len(),
{
    if cs.len() > 1 {
        law_dropping_repeats_keeps_the_first(cs.drop_last());
    } else {
        assert(cs.drop_last() =~= Seq::<CandidateView>::empty());
        assert(without_repeats(cs.drop_last()) =~= Seq::<CandidateView>::empty());
    }
}

// ---- The machine --------------------------------------------------------

/// What the search aims for.
#[derive(Clone, Copy, Debug)]
pub struct Plan {
    /// Match percentage a result must reach to count as acceptable.
    pub target: Billionths,
    /// Hard cap on control points.
    pub budget: usize,
    /// How many of the best seeds get refined.
    pub refine_top: usize,
    /// Coordinate-descent sweeps over the parameter axes.
    pub refine_rounds: usize,
    /// The search runs on a downscaled copy, so what it found is measured again.
    pub downscaled: bool,
}

#[derive(Clone, Copy, Debug, PartialEq, Eq, Structural)]
pub enum Stage {
    /// The seeds are being scored.
    Seeds,
    /// One of the best seeds is being refined.
    Refine,
    /// The candidates are being measured again at full resolution.
    Rescore,
    Finished,
}

/// Coordinate descent from one seed.
pub struct Descent {
    pub seed_label: String,
    pub current: Candidate,
    pub round: usize,
    pub axis: usize,
    pub improved: bool,
    /// The axes of the configuration that the round started from.
    pub axes: Vec<Axis>,
}

/// What a [`Descent`] says.
pub ghost struct DescentView {
    pub seed_label: Seq<char>,
    pub current: CandidateView,
    pub round: int,
    pub axis: int,
    pub improved: bool,
    pub axes: Seq<AxisView>,
}

impl View for Descent {
    type V = DescentView;

    open spec fn view(&self) -> DescentView {
        DescentView {
            seed_label: self.seed_label@,
            current: self.current@,
            round: self.round as int,
            axis: self.axis as int,
            improved: self.improved,
            axes: axes_of(self.axes@),
        }
    }
}

pub struct Search {
    pub plan: Plan,
    pub stage: Stage,
    /// The trials to run next.
    pub batch: Vec<Trial>,
    /// The candidates found, best first.
    pub candidates: Vec<Candidate>,
    pub refined: Vec<Candidate>,
    pub starting: Vec<Candidate>,
    /// Which of the starting candidates is being refined.
    pub which: usize,
    pub descent: Option<Descent>,
}

/// What a [`Search`] is up to.
pub ghost struct SearchView {
    pub plan: Plan,
    pub stage: Stage,
    pub batch: Seq<TrialView>,
    pub candidates: Seq<CandidateView>,
    pub refined: Seq<CandidateView>,
    pub starting: Seq<CandidateView>,
    pub which: int,
    pub descent: Option<DescentView>,
}

impl View for Search {
    type V = SearchView;

    open spec fn view(&self) -> SearchView {
        SearchView {
            plan: self.plan,
            stage: self.stage,
            batch: trials_of(self.batch@),
            candidates: candidates_of(self.candidates@),
            refined: candidates_of(self.refined@),
            starting: candidates_of(self.starting@),
            which: self.which as int,
            descent: match self.descent {
                Some(d) => Some(d@),
                None => None,
            },
        }
    }
}

/// The trials of one axis.
pub open spec fn axis_trials(seed_label: Seq<char>, axis: AxisView) -> Seq<TrialView> {
    Seq::new(
        axis.variants.len(),
        |i: int| TrialView { label: seed_label + "+"@ + axis.name, settings: axis.variants[i] },
    )
}

/// The first step of refining `seed`.
pub open spec fn begun(seed: CandidateView) -> DescentView {
    DescentView {
        seed_label: seed.label,
        current: seed,
        round: 0,
        axis: 0,
        improved: false,
        axes: axes_for(seed.settings),
    }
}

/// The axis that a descent is looking at.
pub open spec fn pending(d: DescentView) -> Seq<TrialView> {
    axis_trials(d.seed_label, d.axes[d.axis])
}

/// At least one sweep is made.
pub open spec fn sweeps(plan: Plan) -> int {
    if plan.refine_rounds < 1 {
        1
    } else {
        plan.refine_rounds as int
    }
}

/// Whether the best result of an axis is taken up.
pub open spec fn takes_up(d: DescentView, sorted: Seq<CandidateView>, plan: Plan) -> bool {
    sorted.len() > 0 && ranks_before(
        sorted[0].score,
        d.current.score,
        plan.target,
        plan.budget,
    )
}

/// What a descent holds once an axis has been measured.
pub open spec fn moved(d: DescentView, sorted: Seq<CandidateView>, plan: Plan) -> DescentView {
    DescentView {
        current: if takes_up(d, sorted, plan) {
            sorted[0]
        } else {
            d.current
        },
        improved: d.improved || takes_up(d, sorted, plan),
        ..d
    }
}

/// A descent is over once a whole sweep has improved nothing, or the sweeps are
/// used up.
pub open spec fn is_over(d: DescentView, plan: Plan) -> bool {
    d.axis + 1 >= d.axes.len() && !(d.improved && d.round + 1 < sweeps(plan))
}

/// The next axis, or the first one of the next sweep.
pub open spec fn onward(d: DescentView) -> DescentView {
    if d.axis + 1 < d.axes.len() {
        DescentView { axis: d.axis + 1, ..d }
    } else {
        DescentView {
            axis: 0,
            round: d.round + 1,
            improved: false,
            axes: axes_for(d.current.settings),
            ..d
        }
    }
}

/// How many seeds are refined.
pub open spec fn start_count(n: int, plan: Plan) -> int {
    let top = if plan.refine_top < 1 {
        1
    } else {
        plan.refine_top as int
    };
    if n < top {
        n
    } else {
        top
    }
}

pub open spec fn finished_with(v: SearchView, candidates: Seq<CandidateView>) -> SearchView {
    SearchView {
        stage: Stage::Finished,
        batch: Seq::empty(),
        candidates,
        refined: Seq::empty(),
        starting: Seq::empty(),
        which: 0,
        descent: None,
        ..v
    }
}

/// The trials that measure the candidates again.
pub open spec fn rescore_trials(cs: Seq<CandidateView>) -> Seq<TrialView> {
    Seq::new(cs.len(), |i: int| trial_of(cs[i]))
}

/// All candidates are in: rank them, drop repeats, and have them measured again
/// where the search ran on a downscaled copy.
pub open spec fn gathered(v: SearchView, all: Seq<CandidateView>) -> SearchView {
    let kept = without_repeats(all);
    if v.plan.downscaled {
        SearchView {
            stage: Stage::Rescore,
            batch: rescore_trials(kept),
            ..finished_with(v, kept)
        }
    } else {
        finished_with(v, kept)
    }
}

/// `w` is what the search is up to after `results` have come in for its batch,
/// where `sorted` is what they gave, in ranking order.
pub open spec fn steps_with(
    v: SearchView,
    results: Seq<Option<Outcome>>,
    sorted: Seq<CandidateView>,
    w: SearchView,
) -> bool {
    let found = scored(v.batch, results, results.len() as int);
    match v.stage {
        Stage::Seeds => if found.len() == 0 {
            w == finished_with(v, found)
        } else {
            w == SearchView {
                stage: Stage::Refine,
                candidates: sorted,
                starting: sorted.take(start_count(sorted.len() as int, v.plan)),
                refined: Seq::empty(),
                which: 0,
                descent: Some(begun(sorted[0])),
                batch: pending(begun(sorted[0])),
                ..v
            }
        },
        Stage::Refine => {
            let d = moved(v.descent->0, sorted, v.plan);
            let refined = v.refined + found;
            if !is_over(d, v.plan) {
                w == SearchView {
                    refined,
                    descent: Some(onward(d)),
                    batch: pending(onward(d)),
                    ..v
                }
            } else if v.which + 1 < v.starting.len() {
                let next = v.starting[v.which + 1];
                w == SearchView {
                    refined: refined.push(d.current),
                    which: v.which + 1,
                    descent: Some(begun(next)),
                    batch: pending(begun(next)),
                    ..v
                }
            } else {
                exists|all: Seq<CandidateView>| #[trigger]
                    is_ranked(
                        v.candidates + refined.push(d.current),
                        all,
                        v.plan.target,
                        v.plan.budget,
                    ) && w == gathered(v, all)
            }
        },
        Stage::Rescore => w == finished_with(v, sorted),
        Stage::Finished => w == v,
    }
}

/// `w` is what the search is up to after `results` have come in for its batch.
pub open spec fn steps(
    v: SearchView,
    results: Seq<Option<Outcome>>,
    w: SearchView,
) -> bool {
    exists|sorted: Seq<CandidateView>| #[trigger]
        is_ranked(
            scored(v.batch, results, results.len() as int),
            sorted,
            v.plan.target,
            v.plan.budget,
        ) && steps_with(v, results, sorted, w)
}

impl SearchView {
    /// The search is in order: scores can be ranked, and while it refines, it
    /// knows what.
    pub open spec fn wf(self) -> bool {
        &&& all_wf(self.candidates)
        &&& all_wf(self.refined)
        &&& all_wf(self.starting)
        &&& self.stage == Stage::Refine ==> {
            &&& self.descent is Some
            &&& self.descent->0.current.score.wf()
            &&& 0 <= self.descent->0.axis < self.descent->0.axes.len()
            &&& 0 <= self.descent->0.round < sweeps(self.plan)
            &&& 0 <= self.which < self.starting.len()
        }
        &&& self.stage == Stage::Seeds ==> self.candidates.len() == 0 && self.refined.len() == 0
        &&& self.stage == Stage::Rescore ==> self.batch == rescore_trials(self.candidates)
        &&& self.stage == Stage::Rescore || self.stage == Stage::Finished ==> self.refined.len()
            == 0
        &&& self.stage == Stage::Finished ==> self.batch.len() == 0
    }

    /// Whether a candidate with these settings has been found.
    pub open spec fn holds(self, settings: Settings) -> bool {
        listed(self.candidates, settings) || listed(self.refined, settings)
    }
}

/// Settings that leave the given colours unpainted.
pub open spec fn keyed(s: Settings, colors: Seq<Rgba8>, tolerance: Billionths) -> Settings {
    Settings {
        segment: SegmentSettings {
            transparent_colors: colors,
            transparent_tolerance: tolerance,
            ..s.segment
        },
        ..s
    }
}

/// The seeds of a search, each with the keyed colours. Refinement starts from
/// these, so keying the seeds is enough for every candidate.
pub open spec fn keyed_seeds(
    p: ImageProfile,
    max_seeds: usize,
    colors: Seq<Rgba8>,
    tolerance: Billionths,
) -> Seq<TrialView> {
    let seeds = seed_list(p).take(seed_count(seed_list(p).len() as int, max_seeds as int));
    Seq::new(
        seeds.len(),
        |i: int|
            TrialView {
                label: seeds[i].label,
                settings: keyed(seeds[i].settings, colors, tolerance),
            },
    )
}

fn axis_batch(seed_label: &String, axis: &Axis) -> (batch: Vec<Trial>)
    ensures
        trials_of(batch@) == axis_trials(seed_label@, axis@),
{
    let mut batch: Vec<Trial> = Vec::new();
    let mut i: usize = 0;
    while i < axis.variants.len()
        invariant
            i <= axis.variants@.len(),
            batch@.len() == i,
            forall|k: int|
                0 <= k < i ==> (#[trigger] batch@[k])@ == axis_trials(seed_label@, axis@)[k],
        decreases axis.variants@.len() - i,
    {
        let mut label: String = copy_label(seed_label);
        push_text(&mut label, "+");
        push_text(&mut label, axis.name);
        batch.push(Trial { label, config: axis.variants[i].duplicate() });
        i = i + 1;
    }
    assert(trials_of(batch@) =~= axis_trials(seed_label@, axis@));
    batch
}

fn begin(seed: &Candidate) -> (out: (Descent, Vec<Trial>))
    ensures
        out.0@ == begun(seed@),
        trials_of(out.1@) == pending(begun(seed@)),
{
    let axes: Vec<Axis> = refinement_axes(&seed.config);
    proof {
        lemma_axes_exist(seed.config@);
        assert(axes_of(axes@).len() == axes@.len());
        assert(axes_of(axes@)[0] == axes@[0]@);
    }
    let batch: Vec<Trial> = axis_batch(&seed.label, &axes[0]);
    let d = Descent {
        seed_label: copy_label(&seed.label),
        current: seed.duplicate(),
        round: 0,
        axis: 0,
        improved: false,
        axes,
    };
    (d, batch)
}

fn copy_prefix(cs: &Vec<Candidate>, n: usize) -> (out: Vec<Candidate>)
    requires
        n <= cs@.len(),
    ensures
        candidates_of(out@) == candidates_of(cs@).take(n as int),
{
    let mut out: Vec<Candidate> = Vec::new();
    let mut k: usize = 0;
    while k < n
        invariant
            k <= n <= cs@.len(),
            out@.len() == k,
            forall|j: int| 0 <= j < k ==> (#[trigger] out@[j])@ == cs@[j]@,
        decreases n - k,
    {
        out.push(cs[k].duplicate());
        k = k + 1;
    }
    assert(candidates_of(out@) =~= candidates_of(cs@).take(n as int));
    out
}

proof fn lemma_axes_exist(s: Settings)
    ensures
        axes_for(s).len() >= 5,
{
}

proof fn lemma_wf_add(a: Seq<CandidateView>, b: Seq<CandidateView>)
    requires
        all_wf(a),
        all_wf(b),
    ensures
        all_wf(a + b),
{
    assert forall|k: int| 0 <= k < (a + b).len() implies (#[trigger] (a + b)[k]).score.wf() by {
        if k < a.len() {
            assert(a[k].score.wf());
        } else {
            assert(b[k - a.len()].score.wf());
        }
    }
}

impl Search {
    /// A search over the settings that the profile suggests. The keyed colours
    /// are a requirement of the output rather than a setting to search over, so
    /// they are stamped onto every candidate.
    pub fn new(
        profile: &ImageProfile,
        max_seeds: usize,
        transparent_colors: &Vec<Rgba8>,
        transparent_tolerance: Billionths,
        plan: Plan,
    ) -> (s: Search)
        ensures
            s@ == (SearchView {
                plan,
                stage: Stage::Seeds,
                batch: keyed_seeds(
                    *profile,
                    max_seeds,
                    transparent_colors@,
                    transparent_tolerance,
                ),
                candidates: Seq::empty(),
                refined: Seq::empty(),
                starting: Seq::empty(),
                which: 0,
                descent: None,
            }),
            s@.wf(),
    {
        let mut batch: Vec<Trial> = seed_configs(profile, max_seeds);
        let ghost seeds = trials_of(batch@);
        let n: usize = batch.len();
        let mut k: usize = 0;
        while k < n
            invariant
                k <= n,
                n == batch@.len(),
                n == seeds.len(),
                forall|j: int|
                    0 <= j < k ==> (#[trigger] batch@[j])@ == (TrialView {
                        label: seeds[j].label,
                        settings: keyed(
                            seeds[j].settings,
                            transparent_colors@,
                            transparent_tolerance,
                        ),
                    }),
                forall|j: int| k <= j < n ==> (#[trigger] batch@[j])@ == seeds[j],
            decreases n - k,
        {
            assert(batch@[k as int]@ == seeds[k as int]);
            batch[k].config.segment.transparent_colors = copy_colors(transparent_colors);
            batch[k].config.segment.transparent_tolerance = transparent_tolerance;
            k = k + 1;
        }
        let s = Search {
            plan,
            stage: Stage::Seeds,
            batch,
            candidates: Vec::new(),
            refined: Vec::new(),
            starting: Vec::new(),
            which: 0,
            descent: None,
        };
        proof {
            assert(s@.batch =~= keyed_seeds(
                *profile,
                max_seeds,
                transparent_colors@,
                transparent_tolerance,
            ));
            assert(s@.candidates =~= Seq::<CandidateView>::empty());
            assert(s@.refined =~= Seq::<CandidateView>::empty());
            assert(s@.starting =~= Seq::<CandidateView>::empty());
        }
        s
    }

    /// Rough total for a progress bar: seeds, plus each refined candidate's axis
    /// sweep.
    pub fn estimate(&self) -> (n: usize)
        requires
            self.batch@.len() + self.plan.refine_top * self.plan.refine_rounds * 12 <= usize::MAX,
        ensures
            n == self.batch@.len() + self.plan.refine_top * self.plan.refine_rounds * 12,
    {
        let top: usize = self.plan.refine_top;
        let rounds: usize = self.plan.refine_rounds;
        assert(0 <= top * rounds <= top * rounds * 12) by (nonlinear_arith)
            requires
                0 <= top,
                0 <= rounds,
        ;
        self.batch.len() + top * rounds * 12
    }

    /// Whether there is nothing left to try. The candidates are then complete,
    /// best first.
    pub fn is_finished(&self) -> (b: bool)
        ensures
            b == (self@.stage == Stage::Finished),
    {
        match self.stage {
            Stage::Finished => true,
            _ => false,
        }
    }

    /// The best candidate found, if any.
    pub fn best(&self) -> (c: Option<&Candidate>)
        ensures
            self.candidates@.len() == 0 ==> c is None,
            self.candidates@.len() > 0 ==> c == Some(&self.candidates@[0]),
    {
        if self.candidates.len() == 0 {
            None
        } else {
            Some(&self.candidates[0])
        }
    }

    fn finish(&mut self, candidates: Vec<Candidate>)
        requires
            all_wf(candidates_of(candidates@)),
        ensures
            final(self)@ == finished_with(old(self)@, candidates_of(candidates@)),
            final(self)@.wf(),
    {
        self.stage = Stage::Finished;
        self.batch = Vec::new();
        self.candidates = candidates;
        self.refined = Vec::new();
        self.starting = Vec::new();
        self.which = 0;
        self.descent = None;
        assert(self@.batch =~= Seq::<TrialView>::empty());
        assert(self@.refined =~= Seq::<CandidateView>::empty());
        assert(self@.starting =~= Seq::<CandidateView>::empty());
    }

    /// Take in how the trials of the current batch came out, and decide what to
    /// try next.
    #[verifier::rlimit(60)]
    pub fn report(&mut self, results: &Vec<Option<Outcome>>)
        requires
            old(self)@.wf(),
            results@.len() == old(self).batch@.len(),
            all_scored(results@),
        ensures
            steps(old(self)@, results@, final(self)@),
            final(self)@.wf(),
    {
        let ghost v = self@;
        let target: i64 = self.plan.target;
        let budget: usize = self.plan.budget;
        let found: Vec<Candidate> = collect(&self.batch, results);
        proof {
            lemma_scored_wf(v.batch, results@, results@.len() as int);
        }
        let sorted: Vec<Candidate> = sort_candidates(&found, target, budget);
        let ghost sv = candidates_of(sorted@);
        let ghost fv = candidates_of(found@);
        assert(is_ranked(fv, sv, target, budget));
        match self.stage {
            Stage::Seeds => {
                if found.len() == 0 {
                    self.finish(found);
                    assert(fv =~= scored(v.batch, results@, results@.len() as int));
                } else {
                    let top: usize = if self.plan.refine_top < 1 {
                        1
                    } else {
                        self.plan.refine_top
                    };
                    let n: usize = if sorted.len() < top {
                        sorted.len()
                    } else {
                        top
                    };
                    let (d, batch) = begin(&sorted[0]);
                    self.starting = copy_prefix(&sorted, n);
                    self.candidates = sorted;
                    self.refined = Vec::new();
                    self.which = 0;
                    self.descent = Some(d);
                    self.batch = batch;
                    self.stage = Stage::Refine;
                    proof {
                        assert(self@.refined =~= Seq::<CandidateView>::empty());
                        assert(sv[0] == sorted@[0]@);
                        assert(sv[0].score.wf());
                        lemma_axes_exist(sv[0].settings);
                        assert forall|k: int| 0 <= k < self@.starting.len() implies (
                        #[trigger] self@.starting[k]).score.wf() by {
                            assert(sv[k].score.wf());
                        }
                    }
                }
            },
            Stage::Refine => {
                self.report_axis(found, sorted, Ghost(results@));
            },
            Stage::Rescore => {
                self.finish(sorted);
            },
            Stage::Finished => {},
        }
        assert(steps_with(v, results@, sv, self@));
    }

    /// The results of one axis of a descent.
    #[verifier::rlimit(60)]
    fn report_axis(
        &mut self,
        found: Vec<Candidate>,
        sorted: Vec<Candidate>,
        Ghost(results): Ghost<Seq<Option<Outcome>>>,
    )
        requires
            old(self)@.wf(),
            old(self)@.stage == Stage::Refine,
            candidates_of(found@) == scored(old(self)@.batch, results, results.len() as int),
            all_wf(candidates_of(found@)),
            all_wf(candidates_of(sorted@)),
        ensures
            steps_with(old(self)@, results, candidates_of(sorted@), final(self)@),
            final(self)@.wf(),
    {
        let ghost v = self@;
        let ghost sv = candidates_of(sorted@);
        let ghost fv = candidates_of(found@);
        let target: i64 = self.plan.target;
        let budget: usize = self.plan.budget;
        let mut found: Vec<Candidate> = found;
        let ghost r0 = self.refined@;
        let ghost f0 = found@;
        self.refined.append(&mut found);
        proof {
            assert(self.refined@ == r0 + f0);
            assert(candidates_of(self.refined@) =~= v.refined + fv);
            lemma_wf_add(v.refined, fv);
        }
        let mut taken: Option<Descent> = None;
        std::mem::swap(&mut taken, &mut self.descent);
        match taken {
            None => {
                assert(false);
            },
            Some(mut d) => {
                let ghost dv = d@;
                assert(v.descent == Some(dv));
                if sorted.len() > 0 && is_better(&sorted[0].score, &d.current.score, target, budget) {
                    assert(sv[0] == sorted@[0]@);
                    assert(sv[0].score.wf());
                    d.current = sorted[0].duplicate();
                    d.improved = true;
                }
                let ghost md = moved(dv, sv, v.plan);
                proof {
                    if sorted@.len() > 0 {
                        assert(sv[0] == sorted@[0]@);
                    }
                    assert(d@.axes =~= md.axes);
                    assert(d@ == md);
                }
                let rounds: usize = if self.plan.refine_rounds < 1 {
                    1
                } else {
                    self.plan.refine_rounds
                };
                if d.axis < d.axes.len() - 1 {
                    d.axis = d.axis + 1;
                    assert(axes_of(d.axes@)[d.axis as int] == d.axes@[d.axis as int]@);
                    self.batch = axis_batch(&d.seed_label, &d.axes[d.axis]);
                    assert(d@ == onward(md));
                    self.descent = Some(d);
                } else if d.improved && d.round < rounds - 1 {
                    d.axes = refinement_axes(&d.current.config);
                    d.axis = 0;
                    d.round = d.round + 1;
                    d.improved = false;
                    proof {
                        lemma_axes_exist(md.current.settings);
                        assert(axes_of(d.axes@)[0] == d.axes@[0]@);
                    }
                    self.batch = axis_batch(&d.seed_label, &d.axes[0]);
                    assert(d@ == onward(md));
                    self.descent = Some(d);
                } else {
                    assert(is_over(md, v.plan));
                    let ghost before = self.refined@;
                    self.refined.push(d.current);
                    proof {
                        assert(candidates_of(self.refined@) =~= candidates_of(before).push(
                            md.current,
                        ));
                        assert(all_wf(candidates_of(self.refined@))) by {
                            assert forall|k: int|
                                0 <= k < candidates_of(self.refined@).len() implies (
                            #[trigger] candidates_of(self.refined@)[k]).score.wf() by {
                                if k < before.len() {
                                    assert(candidates_of(before)[k].score.wf());
                                }
                            }
                        }
                    }
                    if self.which < self.starting.len() - 1 {
                        self.which = self.which + 1;
                        assert(v.starting[self.which as int] == self.starting@[self.which as int]@);
                        assert(v.starting[self.which as int].score.wf());
                        let (next, batch) = begin(&self.starting[self.which]);
                        self.batch = batch;
                        self.descent = Some(next);
                        proof {
                            lemma_axes_exist(v.starting[self.which as int].settings);
                        }
                    } else {
                        self.gather(Ghost(v));
                    }
                }
            },
        }
    }

    /// All descents are over.
    fn gather(&mut self, Ghost(v): Ghost<SearchView>)
        requires
            all_wf(old(self)@.candidates),
            all_wf(old(self)@.refined),
            old(self)@.plan == v.plan,
        ensures
            exists|all: Seq<CandidateView>| #[trigger]
                is_ranked(
                    old(self)@.candidates + old(self)@.refined,
                    all,
                    v.plan.target,
                    v.plan.budget,
                ) && final(self)@ == gathered(v, all),
            final(self)@.wf(),
    {
        let ghost c0 = candidates_of(self.candidates@);
        let ghost r0 = candidates_of(self.refined@);
        let ghost cs0 = self.candidates@;
        let ghost rs0 = self.refined@;
        let mut all: Vec<Candidate> = Vec::new();
        all.append(&mut self.candidates);
        all.append(&mut self.refined);
        proof {
            assert(all@ =~= cs0 + rs0);
            assert(candidates_of(all@) =~= c0 + r0);
            lemma_wf_add(c0, r0);
        }
        let ranked: Vec<Candidate> = sort_candidates(&all, self.plan.target, self.plan.budget);
        let ghost rv = candidates_of(ranked@);
        let kept: Vec<Candidate> = drop_repeats(&ranked);
        let ghost kv = candidates_of(kept@);
        proof {
            lemma_without_repeats_wf(rv);
        }
        let mut batch: Vec<Trial> = Vec::new();
        if self.plan.downscaled {
            let n: usize = kept.len();
            let mut k: usize = 0;
            while k < n
                invariant
                    k <= n,
                    n == kept@.len(),
                    kv == candidates_of(kept@),
                    batch@.len() == k,
                    forall|j: int| 0 <= j < k ==> (#[trigger] batch@[j])@ == trial_of(kv[j]),
                decreases n - k,
            {
                assert(kv[k as int] == kept@[k as int]@);
                batch.push(kept[k].as_trial());
                k = k + 1;
            }
            assert(trials_of(batch@) =~= rescore_trials(kv));
        }
        let rescore: bool = self.plan.downscaled;
        self.finish(kept);
        if rescore {
            self.stage = Stage::Rescore;
            self.batch = batch;
        }
        assert(self@ == gathered(v, rv));
    }
}

// ---- Laws ---------------------------------------------------------------

/// Taking up a result never makes a descent worse.
pub proof fn law_refinement_never_gets_worse(
    d: DescentView,
    sorted: Seq<CandidateView>,
    plan: Plan,
)
    ensures
        !ranks_before(
            d.current.score,
            moved(d, sorted, plan).current.score,
            plan.target,
            plan.budget,
        ),
{
}

/// Settings that leave the given colours unpainted.
pub open spec fn is_keyed(s: Settings, colors: Seq<Rgba8>, tolerance: Billionths) -> bool {
    s.segment.transparent_colors == colors && s.segment.transparent_tolerance == tolerance
}

pub open spec fn trials_keyed(
    ts: Seq<TrialView>,
    colors: Seq<Rgba8>,
    tolerance: Billionths,
) -> bool {
    forall|k: int| 0 <= k < ts.len() ==> is_keyed((#[trigger] ts[k]).settings, colors, tolerance)
}

pub open spec fn candidates_keyed(
    cs: Seq<CandidateView>,
    colors: Seq<Rgba8>,
    tolerance: Billionths,
) -> bool {
    forall|k: int| 0 <= k < cs.len() ==> is_keyed((#[trigger] cs[k]).settings, colors, tolerance)
}

pub open spec fn axes_keyed(
    axes: Seq<AxisView>,
    colors: Seq<Rgba8>,
    tolerance: Billionths,
) -> bool {
    forall|a: int, k: int|
        0 <= a < axes.len() && 0 <= k < axes[a].variants.len() ==> is_keyed(
            #[trigger] axes[a].variants[k],
            colors,
            tolerance,
        )
}

/// Everything that a search holds leaves the given colours unpainted.
pub open spec fn search_keyed(v: SearchView, colors: Seq<Rgba8>, tolerance: Billionths) -> bool {
    &&& trials_keyed(v.batch, colors, tolerance)
    &&& candidates_keyed(v.candidates, colors, tolerance)
    &&& candidates_keyed(v.refined, colors, tolerance)
    &&& candidates_keyed(v.starting, colors, tolerance)
    &&& v.descent matches Some(d) ==> is_keyed(d.current.settings, colors, tolerance) && axes_keyed(
        d.axes,
        colors,
        tolerance,
    )
}

proof fn lemma_axes_keyed(s: Settings, colors: Seq<Rgba8>, tolerance: Billionths)
    requires
        is_keyed(s, colors, tolerance),
    ensures
        axes_keyed(axes_for(s), colors, tolerance),
{
}

proof fn lemma_scored_keyed(
    batch: Seq<TrialView>,
    results: Seq<Option<Outcome>>,
    k: int,
    colors: Seq<Rgba8>,
    tolerance: Billionths,
)
    requires
        trials_keyed(batch, colors, tolerance),
        0 <= k <= batch.len(),
    ensures
        candidates_keyed(scored(batch, results, k), colors, tolerance),
    decreases k,
{
    if k > 0 {
        lemma_scored_keyed(batch, results, k - 1, colors, tolerance);
        assert(is_keyed(batch[k - 1].settings, colors, tolerance));
    }
}

proof fn lemma_ranked_keyed(
    cs: Seq<CandidateView>,
    out: Seq<CandidateView>,
    target: Billionths,
    budget: usize,
    colors: Seq<Rgba8>,
    tolerance: Billionths,
)
    requires
        is_ranked(cs, out, target, budget),
        candidates_keyed(cs, colors, tolerance),
    ensures
        candidates_keyed(out, colors, tolerance),
        out.len() == cs.len(),
{
    let ranks = ranks_of(cs, target, budget);
    let order = choose|order: Seq<usize>| #[trigger]
        is_stable_order(ranks, order) && out == Seq::new(order.len(), |k: int| cs[order[k] as int]);
    assert forall|k: int| 0 <= k < out.len() implies is_keyed(
        (#[trigger] out[k]).settings,
        colors,
        tolerance,
    ) by {
        assert(order[k] < ranks.len());
        assert(is_keyed(cs[order[k] as int].settings, colors, tolerance));
    }
}

proof fn lemma_repeats_keyed(cs: Seq<CandidateView>, colors: Seq<Rgba8>, tolerance: Billionths)
    requires
        candidates_keyed(cs, colors, tolerance),
    ensures
        candidates_keyed(without_repeats(cs), colors, tolerance),
    decreases cs.len(),
{
    if cs.len() > 0 {
        assert(candidates_keyed(cs.drop_last(), colors, tolerance)) by {
            assert forall|k: int| 0 <= k < cs.drop_last().len() implies is_keyed(
                (#[trigger] cs.drop_last()[k]).settings,
                colors,
                tolerance,
            ) by {
                assert(is_keyed(cs[k].settings, colors, tolerance));
            }
        }
        lemma_repeats_keyed(cs.drop_last(), colors, tolerance);
        assert(is_keyed(cs[cs.len() - 1].settings, colors, tolerance));
    }
}

/// The keyed colours reach every seed.
pub proof fn law_seeds_are_keyed(
    p: ImageProfile,
    max_seeds: usize,
    colors: Seq<Rgba8>,
    tolerance: Billionths,
)
    ensures
        trials_keyed(keyed_seeds(p, max_seeds, colors, tolerance), colors, tolerance),
{
}

/// The keyed colours stay with every trial and candidate of a search, whatever
/// the scores.
#[verifier::rlimit(40)]
pub proof fn law_every_candidate_is_keyed(
    v: SearchView,
    results: Seq<Option<Outcome>>,
    w: SearchView,
    colors: Seq<Rgba8>,
    tolerance: Billionths,
)
    requires
        v.wf(),
        search_keyed(v, colors, tolerance),
        results.len() == v.batch.len(),
        steps(v, results, w),
    ensures
        search_keyed(w, colors, tolerance),
{
    let n = results.len() as int;
    let found = scored(v.batch, results, n);
    let target = v.plan.target;
    let budget = v.plan.budget;
    lemma_scored_keyed(v.batch, results, n, colors, tolerance);
    let sorted = choose|sorted: Seq<CandidateView>| #[trigger]
        is_ranked(scored(v.batch, results, n), sorted, target, budget) && steps_with(
            v,
            results,
            sorted,
            w,
        );
    lemma_ranked_keyed(found, sorted, target, budget, colors, tolerance);
    match v.stage {
        Stage::Seeds => {
            if found.len() > 0 {
                assert(is_keyed(sorted[0].settings, colors, tolerance));
                lemma_axes_keyed(sorted[0].settings, colors, tolerance);
                lemma_pending_keyed(begun(sorted[0]), colors, tolerance);
            }
        },
        Stage::Refine => {
            let d0 = v.descent->0;
            let d = moved(d0, sorted, v.plan);
            if sorted.len() > 0 {
                assert(is_keyed(sorted[0].settings, colors, tolerance));
            }
            assert(is_keyed(d.current.settings, colors, tolerance));
            let refined = v.refined + found;
            assert(candidates_keyed(refined, colors, tolerance)) by {
                assert forall|k: int| 0 <= k < refined.len() implies is_keyed(
                    (#[trigger] refined[k]).settings,
                    colors,
                    tolerance,
                ) by {
                    if k < v.refined.len() {
                        assert(is_keyed(v.refined[k].settings, colors, tolerance));
                    } else {
                        assert(is_keyed(
                            found[k - v.refined.len()].settings,
                            colors,
                            tolerance,
                        ));
                    }
                }
            }
            let pushed = refined.push(d.current);
            assert(candidates_keyed(pushed, colors, tolerance)) by {
                assert forall|k: int| 0 <= k < pushed.len() implies is_keyed(
                    (#[trigger] pushed[k]).settings,
                    colors,
                    tolerance,
                ) by {
                    if k < refined.len() {
                        assert(is_keyed(refined[k].settings, colors, tolerance));
                    }
                }
            }
            lemma_axes_keyed(d.current.settings, colors, tolerance);
            if !is_over(d, v.plan) {
                lemma_axes_exist(d.current.settings);
                lemma_pending_keyed(onward(d), colors, tolerance);
            } else if v.which + 1 < v.starting.len() {
                let next = v.starting[v.which + 1];
                assert(is_keyed(next.settings, colors, tolerance));
                lemma_axes_keyed(next.settings, colors, tolerance);
                lemma_pending_keyed(begun(next), colors, tolerance);
            } else {
                let cs = v.candidates + pushed;
                assert(candidates_keyed(cs, colors, tolerance)) by {
                    assert forall|k: int| 0 <= k < cs.len() implies is_keyed(
                        (#[trigger] cs[k]).settings,
                        colors,
                        tolerance,
                    ) by {
                        if k < v.candidates.len() {
                            assert(is_keyed(v.candidates[k].settings, colors, tolerance));
                        } else {
                            assert(is_keyed(
                                pushed[k - v.candidates.len()].settings,
                                colors,
                                tolerance,
                            ));
                        }
                    }
                }
                let all = choose|all: Seq<CandidateView>| #[trigger]
                    is_ranked(cs, all, target, budget) && w == gathered(v, all);
                lemma_ranked_keyed(cs, all, target, budget, colors, tolerance);
                lemma_repeats_keyed(all, colors, tolerance);
                let kept = without_repeats(all);
                assert(trials_keyed(rescore_trials(kept), colors, tolerance)) by {
                    assert forall|k: int| 0 <= k < rescore_trials(kept).len() implies is_keyed(
                        (#[trigger] rescore_trials(kept)[k]).settings,
                        colors,
                        tolerance,
                    ) by {
                        assert(is_keyed(kept[k].settings, colors, tolerance));
                    }
                }
            }
        },
        _ => {},
    }
}

proof fn lemma_pending_keyed(d: DescentView, colors: Seq<Rgba8>, tolerance: Billionths)
    requires
        axes_keyed(d.axes, colors, tolerance),
        0 <= d.axis < d.axes.len(),
    ensures
        trials_keyed(pending(d), colors, tolerance),
{
    assert forall|k: int| 0 <= k < pending(d).len() implies is_keyed(
        (#[trigger] pending(d)[k]).settings,
        colors,
        tolerance,
    ) by {
        assert(is_keyed(d.axes[d.axis].variants[k], colors, tolerance));
    }
}

proof fn lemma_scored_listed(
    batch: Seq<TrialView>,
    results: Seq<Option<Outcome>>,
    n: int,
    k: int,
)
    requires
        0 <= k < n,
        results[k] is Some,
    ensures
        listed(scored(batch, results, n), batch[k].settings),
    decreases n,
{
    let all = scored(batch, results, n);
    let rest = scored(batch, results, n - 1);
    if k == n - 1 {
        assert(all[rest.len() as int].settings == batch[k].settings);
    } else {
        lemma_scored_listed(batch, results, n - 1, k);
        let q = choose|q: int| 0 <= q < rest.len() && (#[trigger] rest[q]).settings
            == batch[k].settings;
        assert(all[q] == rest[q]);
    }
}

proof fn lemma_listed_add(a: Seq<CandidateView>, b: Seq<CandidateView>, settings: Settings)
    requires
        listed(a, settings) || listed(b, settings),
    ensures
        listed(a + b, settings),
{
    if listed(a, settings) {
        let k = choose|k: int| 0 <= k < a.len() && (#[trigger] a[k]).settings == settings;
        assert((a + b)[k] == a[k]);
    } else {
        let k = choose|k: int| 0 <= k < b.len() && (#[trigger] b[k]).settings == settings;
        assert((a + b)[a.len() + k] == b[k]);
    }
}

proof fn lemma_gathered_listed(
    list: Seq<CandidateView>,
    all: Seq<CandidateView>,
    target: Billionths,
    budget: usize,
    settings: Settings,
)
    requires
        is_ranked(list, all, target, budget),
        listed(list, settings),
    ensures
        listed(without_repeats(all), settings),
{
    lemma_ranked_listed(list, all, target, budget, settings);
    law_dropping_repeats_loses_no_settings(all);
    let k = choose|k: int| 0 <= k < all.len() && (#[trigger] all[k]).settings == settings;
    assert(listed(without_repeats(all), all[k].settings));
}

/// Nothing that a search found is lost: settings that were tried and scored stay,
/// and the last stage, which measures every one of them again, drops only those
/// that could not be measured.
pub proof fn law_nothing_found_is_lost(
    v: SearchView,
    results: Seq<Option<Outcome>>,
    w: SearchView,
)
    requires
        v.wf(),
        results.len() == v.batch.len(),
        steps(v, results, w),
    ensures
        forall|k: int|
            0 <= k < results.len() && (#[trigger] results[k]) is Some ==> w.holds(
                v.batch[k].settings,
            ),
        v.stage != Stage::Rescore ==> forall|s: Settings| v.holds(s) ==> #[trigger] w.holds(s),
{
    let n = results.len() as int;
    let found = scored(v.batch, results, n);
    let target = v.plan.target;
    let budget = v.plan.budget;
    let sorted = choose|sorted: Seq<CandidateView>| #[trigger]
        is_ranked(scored(v.batch, results, n), sorted, target, budget) && steps_with(
            v,
            results,
            sorted,
            w,
        );
    assert forall|s: Settings| listed(found, s) || (v.stage != Stage::Rescore && v.holds(s)) implies
        #[trigger] w.holds(s) by {
        if listed(found, s) {
            lemma_ranked_listed(found, sorted, target, budget, s);
        }
        if v.stage == Stage::Refine {
            let d = moved(v.descent->0, sorted, v.plan);
            let refined = v.refined + found;
            if listed(v.refined, s) || listed(found, s) {
                lemma_listed_add(v.refined, found, s);
                lemma_listed_add(refined, seq![d.current], s);
                assert(refined + seq![d.current] =~= refined.push(d.current));
            }
            if is_over(d, v.plan) && v.which + 1 >= v.starting.len() {
                let list = v.candidates + refined.push(d.current);
                lemma_listed_add(v.candidates, refined.push(d.current), s);
                let all = choose|all: Seq<CandidateView>| #[trigger]
                    is_ranked(list, all, target, budget) && w == gathered(v, all);
                lemma_gathered_listed(list, all, target, budget, s);
            }
        }
    }
    assert forall|k: int| 0 <= k < results.len() && (#[trigger] results[k]) is Some implies w.holds(
        v.batch[k].settings,
    ) by {
        lemma_scored_listed(v.batch, results, n, k);
    }
}

/// What is left of a search: its stage, then the seeds, sweeps and axes still to
/// go.
pub ghost struct Ahead {
    pub stages: int,
    pub seeds: int,
    pub rounds: int,
    pub axes: int,
}

pub open spec fn ahead(v: SearchView) -> Ahead {
    match v.stage {
        Stage::Seeds => Ahead { stages: 3, seeds: 0, rounds: 0, axes: 0 },
        Stage::Refine => Ahead {
            stages: 2,
            seeds: v.starting.len() - v.which,
            rounds: sweeps(v.plan) - v.descent->0.round,
            axes: v.descent->0.axes.len() - v.descent->0.axis,
        },
        Stage::Rescore => Ahead { stages: 1, seeds: 0, rounds: 0, axes: 0 },
        Stage::Finished => Ahead { stages: 0, seeds: 0, rounds: 0, axes: 0 },
    }
}

/// Less is left in `a` than in `b`, stage by stage, seed by seed, sweep by sweep
/// and axis by axis. All counts are natural numbers, so this cannot go on
/// forever.
pub open spec fn less_ahead(a: Ahead, b: Ahead) -> bool {
    &&& a.stages >= 0 && a.seeds >= 0 && a.rounds >= 0 && a.axes >= 0
    &&& a.stages < b.stages || (a.stages == b.stages && (a.seeds < b.seeds || (a.seeds == b.seeds
        && (a.rounds < b.rounds || (a.rounds == b.rounds && a.axes < b.axes)))))
}

/// Every report brings a search nearer its end, whatever the results were: it
/// never tries anything forever.
pub proof fn law_every_report_makes_progress(
    v: SearchView,
    results: Seq<Option<Outcome>>,
    w: SearchView,
)
    requires
        v.wf(),
        v.stage != Stage::Finished,
        w.wf(),
        steps(v, results, w),
    ensures
        less_ahead(ahead(w), ahead(v)),
{
    let sorted = choose|sorted: Seq<CandidateView>| #[trigger]
        is_ranked(
            scored(v.batch, results, results.len() as int),
            sorted,
            v.plan.target,
            v.plan.budget,
        ) && steps_with(v, results, sorted, w);
    if v.stage == Stage::Refine {
        let d = moved(v.descent->0, sorted, v.plan);
        assert(d.axis == v.descent->0.axis && d.round == v.descent->0.round && d.axes
            == v.descent->0.axes);
    }
}

// ---- How the search goes on ---------------------------------------------

/// Candidates come of the trials that could be scored, in their order, each with its own
/// settings, label and score.
pub proof fn law_scored_trials_become_candidates(
    batch: Seq<TrialView>,
    results: Seq<Option<Outcome>>,
    k: int,
) -> (at: int)
    requires
        0 <= k < results.len(),
        results.len() <= batch.len(),
    ensures
        results[k] matches Some(o) ==> {
            let all = scored(batch, results, results.len() as int);
            &&& 0 <= at < all.len()
            &&& at == Seq::new(k as nat, |i: int| results[i]).filter(
                |r: Option<Outcome>| r is Some,
            ).len()
            &&& all[at].settings == batch[k].settings
            &&& all[at].label == batch[k].label
            &&& all[at].score == o.score
            &&& all[at].id == o.id
        },
        scored(batch, results, results.len() as int).len() == results.filter(
            |r: Option<Outcome>| r is Some,
        ).len(),
{
    lemma_scored_len(batch, results, k);
    lemma_scored_len(batch, results, results.len() as int);
    assert(Seq::new(results.len(), |i: int| results[i]) =~= results);
    let at = scored(batch, results, k).len() as int;
    lemma_scored_at(batch, results, k, results.len() as int);
    at
}

proof fn lemma_scored_len(batch: Seq<TrialView>, results: Seq<Option<Outcome>>, k: int)
    requires
        0 <= k <= results.len(),
    ensures
        scored(batch, results, k).len() == Seq::new(k as nat, |i: int| results[i]).filter(
            |r: Option<Outcome>| r is Some,
        ).len(),
    decreases k,
{
    reveal(Seq::filter);
    if k > 0 {
        lemma_scored_len(batch, results, k - 1);
        let all = Seq::new(k as nat, |i: int| results[i]);
        assert(all.drop_last() =~= Seq::new((k - 1) as nat, |i: int| results[i]));
        assert(all.last() == results[k - 1]);
    }
}

proof fn lemma_scored_at(batch: Seq<TrialView>, results: Seq<Option<Outcome>>, k: int, n: int)
    requires
        0 <= k < n <= results.len(),
    ensures
        results[k] matches Some(o) ==> {
            let at = scored(batch, results, k).len() as int;
            &&& at < scored(batch, results, n).len()
            &&& scored(batch, results, n)[at] == (CandidateView {
                label: batch[k].label,
                settings: batch[k].settings,
                score: o.score,
                id: o.id,
            })
        },
    decreases n,
{
    if k < n - 1 {
        lemma_scored_at(batch, results, k, n - 1);
    }
}

/// After the seeds, the best of them are refined, as many as the plan says and one at
/// least, from the best on; without any the search is over.
pub proof fn law_the_best_seeds_are_refined(
    v: SearchView,
    results: Seq<Option<Outcome>>,
    sorted: Seq<CandidateView>,
    w: SearchView,
)
    requires
        steps_with(v, results, sorted, w),
        v.stage == Stage::Seeds,
        sorted.len() == scored(v.batch, results, results.len() as int).len(),
    ensures
        sorted.len() == 0 ==> w.stage == Stage::Finished && w.candidates.len() == 0,
        sorted.len() > 0 ==> {
            &&& w.stage == Stage::Refine
            &&& w.candidates == sorted
            &&& 1 <= w.starting.len() <= sorted.len()
            &&& v.plan.refine_top >= 1 ==> w.starting.len() <= v.plan.refine_top
            &&& w.starting.len() < sorted.len() ==> w.starting.len() == v.plan.refine_top
                || w.starting.len() == 1
            &&& forall|k: int| 0 <= k < w.starting.len() ==> #[trigger] w.starting[k] == sorted[k]
            &&& w.descent matches Some(d) && d.current == sorted[0] && d.round == 0 && d.axis == 0
            &&& w.plan == v.plan
        },
{
}

/// A descent keeps the better of what it has and the best that an axis gave, looks at the
/// next axis until it has looked at all, and begins again from what it has found where
/// that improved on the last sweep and a sweep is left.
pub proof fn law_descents_sweep_while_they_improve(
    d: DescentView,
    sorted: Seq<CandidateView>,
    plan: Plan,
)
    requires
        d.axes.len() > 0,
        0 <= d.axis < d.axes.len(),
        d.round >= 0,
    ensures
        ({
            let e = moved(d, sorted, plan);
            let better = sorted.len() > 0 && ranks_before(
                sorted[0].score,
                d.current.score,
                plan.target,
                plan.budget,
            );
            &&& better ==> e.current == sorted[0] && e.improved
            &&& !better ==> e.current == d.current && e.improved == d.improved
            &&& e.axis == d.axis && e.round == d.round && e.axes == d.axes
            &&& d.axis < d.axes.len() - 1 ==> !is_over(e, plan) && onward(e).axis == d.axis + 1
                && onward(e).round == d.round && onward(e).axes == d.axes
            &&& d.axis == d.axes.len() - 1 ==> (is_over(e, plan) <==> !e.improved || (d.round + 1
                >= plan.refine_rounds))
            &&& d.axis == d.axes.len() - 1 && !is_over(e, plan) ==> onward(e).axis == 0 && onward(
                e,
            ).round == d.round + 1 && onward(e).axes == axes_for(e.current.settings) && !onward(
                e,
            ).improved && onward(e).current == e.current
        }),
{
}

/// The trials of an axis try each of its variants once, in order, under the name of the
/// seed and of the axis.
pub proof fn law_axes_try_their_variants(seed_label: Seq<char>, axis: AxisView, i: int)
    requires
        0 <= i < axis.variants.len(),
    ensures
        axis_trials(seed_label, axis).len() == axis.variants.len(),
        axis_trials(seed_label, axis)[i].settings == axis.variants[i],
        axis_trials(seed_label, axis)[i].label == seed_label + "+"@ + axis.name,
{
}

} // verus!
