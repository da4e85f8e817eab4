//! The steps of a run.
//!
//! A run evaluates the seed, and then, until it is to stop, mutates or merges
//! candidates and keeps those that prove better. Each function here makes one
//! decision of the run; what lies between them is evaluation, which is for the
//! caller to do.
use serde_json::Value;
use vstd::prelude::*;

use crate::error::{GEPAError, Result};
use crate::keyed::{views, KeyMap};
use crate::optimizer::adapter::{candidate_copy, candidate_entries, Candidate, EvaluationBatch};
use crate::optimizer::cache::{
    misses, optional_rows, stored, CachedEvaluation, CachedView, EvaluationCache,
};
use crate::optimizer::cached_eval::{cached_wf, contents, hits, read_cache};
use crate::optimizer::callbacks::{
    BudgetUpdatedEvent, EvaluationStartEvent, MergeAcceptedEvent, MergeRejectedEvent,
};
use crate::optimizer::data_loader::DataId;
use crate::optimizer::frontier::FrontierType;
use crate::optimizer::full_eval::{
    build_valset_evaluation_with_metric_delta, built_from, copy_ids, copy_rows, copy_scores,
    copy_values, merge_cached_and_uncached, merge_fault, merged_from, FullValsetEvaluation,
};
use crate::optimizer::state::{
    objectives_fault, seed_objectives_fault, GEPAState, StepKind, TraceEntry,
};
use crate::proposer::base::CandidateProposal;
use crate::proposer::merge_proposer::MergeProposer;
use crate::score::{greatest, sums_to, top_score, Score, ScoreArithmetic};
use crate::utils::programs::ProgramIdx;

verus! {

/// The settings of a run that its state depends on.
#[derive(Debug, Clone, Copy)]
pub struct EngineSettings {
    /// Which Pareto fronts candidates are selected from.
    pub frontier_type: FrontierType,
    /// Whether the best output on every example is kept.
    pub track_best_outputs: bool,
    /// Whether evaluation results are cached.
    pub cache_evaluation: bool,
}

/// Check that there is a validation example.
///
/// # Errors
/// A configuration error where there is none.
pub fn check_valset(n: usize) -> (r: Result<()>)
    ensures
        match r {
            Ok(()) => n > 0,
            Err(e) => {
                &&& n == 0
                &&& e matches GEPAError::Config(text)
                &&& text@ == "Validation set is empty — cannot initialise GEPAState"@
            },
        },
{
    if n == 0 {
        return Err(
            GEPAError::Config("Validation set is empty — cannot initialise GEPAState".to_owned()),
        );
    }
    Ok(())
}

/// Whether `after` is `before` with a cache just where one is wanted: a cache
/// that is there is kept, a new one is empty.
pub open spec fn cache_synced<Id: DataId>(
    before: GEPAState<Id>,
    after: GEPAState<Id>,
    wanted: bool,
) -> bool {
    &&& after == (GEPAState { evaluation_cache: after.evaluation_cache, ..before })
    &&& match after.evaluation_cache {
        Some(cache) => wanted && cache.wf() && match before.evaluation_cache {
            Some(old_cache) => cache == old_cache,
            None => cache@ == Map::<Seq<char>, CachedView>::empty(),
        },
        None => !wanted,
    }
}

/// Give the state a cache just where one is wanted.
pub fn sync_cache<Id: DataId>(state: &mut GEPAState<Id>, wanted: bool)
    requires
        old(state).maps_wf(),
    ensures
        cache_synced(*old(state), *final(state), wanted),
        final(state).maps_wf(),
{
    if wanted {
        if state.evaluation_cache.is_none() {
            state.evaluation_cache = Some(EvaluationCache::new());
        }
    } else {
        state.evaluation_cache = None;
    }
}

/// The state of a run whose seed was evaluated. Where results are cached, those
/// of the seed are in the cache.
///
/// # Errors
/// A configuration error where the frontier type needs objective scores and the
/// seed's results have none.
pub fn seed_state<Id: DataId>(
    seed_candidate: &Candidate,
    val_ids: &Vec<Id>,
    outcome: FullValsetEvaluation<Id>,
    settings: &EngineSettings,
) -> (r: Result<GEPAState<Id>>)
    requires
        outcome.wf(),
        val_ids@.len() <= outcome.outputs@.len(),
        val_ids@.len() <= outcome.scores@.len(),
    ensures
        match r {
            Ok(state) => {
                let entries = candidate_entries(*seed_candidate);
                &&& !(settings.frontier_type.needs_objectives()
                    && outcome.valset_evaluation.objective_scores_by_val_id is None)
                &&& state.seeded_by(
                    entries,
                    outcome.valset_evaluation,
                    settings.frontier_type,
                    settings.track_best_outputs,
                )
                &&& match state.evaluation_cache {
                    Some(cache) => settings.cache_evaluation && cache@ == stored::<Id>(
                        Map::empty(),
                        entries,
                        views(val_ids@),
                        outcome.outputs@,
                        outcome.scores@,
                        optional_rows(outcome.objective_scores),
                        val_ids@.len() as int,
                    ),
                    None => !settings.cache_evaluation,
                }
            },
            Err(e) => {
                &&& settings.frontier_type.needs_objectives()
                &&& outcome.valset_evaluation.objective_scores_by_val_id is None
                &&& e matches GEPAError::Config(text)
                &&& text@ == seed_objectives_fault(settings.frontier_type)
            },
        },
{
    let FullValsetEvaluation {
        valset_evaluation,
        scores,
        outputs,
        objective_scores,
        metric_evals: _,
    } = outcome;
    let cache = if settings.cache_evaluation {
        let mut cache = EvaluationCache::new();
        cache.put_batch(seed_candidate, val_ids.as_slice(), outputs, scores, objective_scores);
        Some(cache)
    } else {
        None
    };
    GEPAState::new_with_options(
        candidate_copy(seed_candidate),
        valset_evaluation,
        settings.frontier_type,
        cache,
        settings.track_best_outputs,
    )
}

/// Start a run from a state: give it a cache just where one is wanted, and count
/// the evaluation of the seed if it was not counted before.
///
/// # Errors
/// [`GEPAError::NoCandidates`] where the state has no candidate.
pub fn open_run<Id: DataId>(
    state: &mut GEPAState<Id>,
    settings: &EngineSettings,
    seed_evals: usize,
) -> (r: Result<BudgetUpdatedEvent>)
    requires
        old(state).maps_wf(),
    ensures
        final(state).maps_wf(),
        ({
            let counted = if old(state).num_full_ds_evals == 0 {
                (1usize, seed_evals)
            } else {
                (old(state).num_full_ds_evals, old(state).total_num_evals)
            };
            let before = GEPAState {
                num_full_ds_evals: counted.0,
                total_num_evals: counted.1,
                ..*old(state)
            };
            &&& cache_synced(before, *final(state), settings.cache_evaluation)
            &&& match r {
                Ok(event) => {
                    &&& old(state).program_candidates@.len() > 0
                    &&& event == (BudgetUpdatedEvent {
                        iteration: 0,
                        metric_calls_used: counted.1,
                        metric_calls_delta: seed_evals,
                        metric_calls_remaining: None,
                    })
                },
                Err(e) => e is NoCandidates && old(state).program_candidates@.len() == 0,
            }
        }),
{
    sync_cache(state, settings.cache_evaluation);
    if state.num_full_ds_evals == 0 {
        state.num_full_ds_evals = 1;
        state.total_num_evals = seed_evals;
    }
    if state.program_candidates.len() == 0 {
        return Err(GEPAError::NoCandidates);
    }
    Ok(
        BudgetUpdatedEvent {
            iteration: 0,
            metric_calls_used: state.total_num_evals,
            metric_calls_delta: seed_evals,
            metric_calls_remaining: None,
        },
    )
}

/// The iteration after `i`; the first one comes after the greatest number.
pub open spec fn following(i: usize) -> usize {
    if i == usize::MAX {
        0
    } else {
        (i + 1) as usize
    }
}

/// Go on to the next iteration.
pub fn next_iteration<Id: DataId>(state: &mut GEPAState<Id>)
    ensures
        *final(state) == (GEPAState { i: following(old(state).i), ..*old(state) }),
{
    state.i = if state.i == usize::MAX {
        0
    } else {
        state.i + 1
    };
}

/// What the next iteration tries: a merge if one is due.
pub fn step_kind(merge: &MergeProposer) -> (k: StepKind)
    ensures
        k == if merge.merges_due > 0 {
            StepKind::Merge
        } else {
            StepKind::ReflectiveMutation
        },
{
    if merge.merges_due > 0 {
        StepKind::Merge
    } else {
        StepKind::ReflectiveMutation
    }
}

/// What is known of a candidate on the validation set before it is evaluated.
pub struct FullEvalPlan<Id: DataId> {
    /// The results that the cache has.
    pub cached: KeyMap<Id, CachedEvaluation>,
    /// The examples that are to be evaluated.
    pub uncached_ids: Vec<Id>,
}

impl<Id: DataId> FullEvalPlan<Id> {
    /// The plan is for the candidate with the given components: it has what the
    /// cache has for it.
    pub open spec fn fits(
        &self,
        state: GEPAState<Id>,
        entries: Seq<(Seq<char>, Seq<char>)>,
        val_ids: Seq<Id::V>,
    ) -> bool {
        &&& cached_wf(self.cached)
        &&& match state.evaluation_cache {
            None => contents(self.cached) == Map::<Id::V, CachedView>::empty() && views(
                self.uncached_ids@,
            ) == val_ids,
            Some(cache) => contents(self.cached) == hits::<Id>(cache@, entries, val_ids) && views(
                self.uncached_ids@,
            ) == misses::<Id>(cache@, entries, val_ids, val_ids.len() as int),
        }
    }
}

/// What the cache has for a candidate, and which examples are to be evaluated.
pub fn plan_full_evaluation<Id: DataId>(
    state: &GEPAState<Id>,
    candidate: &Candidate,
    val_ids: &Vec<Id>,
) -> (plan: FullEvalPlan<Id>)
    requires
        state.maps_wf(),
    ensures
        plan.fits(*state, candidate_entries(*candidate), views(val_ids@)),
{
    match &state.evaluation_cache {
        None => {
            let cached: KeyMap<Id, CachedEvaluation> = KeyMap::new();
            assert(contents(cached) =~= Map::<Id::V, CachedView>::empty());
            FullEvalPlan { cached, uncached_ids: copy_ids(val_ids.as_slice()) }
        },
        Some(cache) => {
            let (cached, uncached_ids) = read_cache(cache, candidate, val_ids.as_slice());
            FullEvalPlan { cached, uncached_ids }
        },
    }
}

/// What observers are told before a candidate is evaluated on the validation
/// set.
pub fn evaluation_start(iteration: usize, batch_size: usize, parents: &Vec<ProgramIdx>) -> (e:
    EvaluationStartEvent)
    ensures
        e.iteration == iteration,
        e.candidate_idx is None,
        e.batch_size == batch_size,
        !e.capture_traces,
        e.parent_ids@ == parents@,
        !e.is_seed_candidate,
{
    EvaluationStartEvent {
        iteration,
        candidate_idx: None,
        batch_size,
        capture_traces: false,
        parent_ids: copy_indexes(parents),
        is_seed_candidate: false,
    }
}

/// A copy of a list of indices.
pub fn copy_indexes(list: &Vec<ProgramIdx>) -> (copy: Vec<ProgramIdx>)
    ensures
        copy@ == list@,
{
    let mut copy: Vec<usize> = Vec::new();
    let mut i: usize = 0;
    while i < list.len()
        invariant
            i <= list@.len(),
            copy@ == list@.take(i as int),
        decreases list@.len() - i,
    {
        copy.push(list[i]);
        i += 1;
        assert(copy@ =~= list@.take(i as int));
    }
    assert(copy@ =~= list@);
    copy
}

/// Whether `r` is what the results of `batch` for the plan's missing examples
/// give, and `after` the state that is left.
pub open spec fn absorbed<Id: DataId, T>(
    before: GEPAState<Id>,
    after: GEPAState<Id>,
    entries: Seq<(Seq<char>, Seq<char>)>,
    val_ids: Seq<Id::V>,
    plan: FullEvalPlan<Id>,
    batch: EvaluationBatch<T, Value>,
    r: Result<FullValsetEvaluation<Id>>,
) -> bool {
    let missing = views(plan.uncached_ids@);
    let found = contents(plan.cached);
    &&& after == (GEPAState { evaluation_cache: after.evaluation_cache, ..before })
    &&& match before.evaluation_cache {
        None => {
            &&& after.evaluation_cache is None
            &&& match r {
                Ok(full) => batch.fault(val_ids.len(), false) is None && built_from(
                    full,
                    val_ids,
                    batch,
                    val_ids.len() as usize,
                ),
                Err(e) => e matches GEPAError::Evaluation(text) && batch.fault(
                    val_ids.len(),
                    false,
                ) == Some(text@),
            }
        },
        Some(cache) => {
            &&& after.evaluation_cache matches Some(new_cache)
            &&& if missing.len() == 0 {
                &&& new_cache@ == cache@
                &&& completed(r, val_ids, found, missing, None)
            } else if batch.fault(missing.len(), false) is Some {
                &&& new_cache@ == cache@
                &&& r matches Err(e)
                &&& e matches GEPAError::Evaluation(text)
                &&& batch.fault(missing.len(), false) == Some(text@)
            } else {
                &&& new_cache@ == stored::<Id>(
                    cache@,
                    entries,
                    missing,
                    batch.outputs@,
                    batch.scores@,
                    optional_rows(batch.objective_scores),
                    missing.len() as int,
                )
                &&& exists|fresh: FullValsetEvaluation<Id>|
                    #[trigger] built_from(fresh, missing, batch, missing.len() as usize)
                        && completed(r, val_ids, found, missing, Some(fresh))
            }
        },
    }
}

/// Whether `r` is what the cached and the fresh results give for `val_ids`.
pub open spec fn completed<Id: DataId>(
    r: Result<FullValsetEvaluation<Id>>,
    val_ids: Seq<Id::V>,
    cached: Map<Id::V, CachedView>,
    missing: Seq<Id::V>,
    fresh: Option<FullValsetEvaluation<Id>>,
) -> bool {
    match r {
        Ok(full) => merge_fault(val_ids, cached, missing, fresh) is None && merged_from(
            full,
            val_ids,
            cached,
            fresh,
        ),
        Err(e) => e matches GEPAError::Evaluation(text) && merge_fault(
            val_ids,
            cached,
            missing,
            fresh,
        ) == Some(text@),
    }
}

/// Take the results of the examples that the cache lacked, store them in the
/// cache, and put them together with those that it had.
///
/// # Errors
/// An evaluation error where the batch is not valid for the examples, or a
/// result is missing.
pub fn absorb_full_evaluation<Id: DataId, T, A: ScoreArithmetic>(
    state: &mut GEPAState<Id>,
    candidate: &Candidate,
    val_ids: &Vec<Id>,
    plan: &FullEvalPlan<Id>,
    batch: &EvaluationBatch<T, Value>,
    arith: &A,
) -> (r: Result<FullValsetEvaluation<Id>>)
    requires
        old(state).maps_wf(),
        batch.wf(),
        plan.fits(*old(state), candidate_entries(*candidate), views(val_ids@)),
    ensures
        final(state).maps_wf(),
        absorbed(
            *old(state),
            *final(state),
            candidate_entries(*candidate),
            views(val_ids@),
            *plan,
            *batch,
            r,
        ),
        r matches Ok(full) ==> full.wf() && full.valset_evaluation.means_by(*arith)
            && full.metric_evals == plan.uncached_ids@.len(),
{
    let n: usize = plan.uncached_ids.len();
    assert(views(plan.uncached_ids@).len() == n);
    assert(views(val_ids@).len() == val_ids@.len());
    if state.evaluation_cache.is_none() {
        return build_valset_evaluation_with_metric_delta(
            val_ids.as_slice(),
            batch,
            val_ids.len(),
            arith,
        );
    }
    if n == 0 {
        return merge_cached_and_uncached(
            val_ids.as_slice(),
            &plan.cached,
            &plan.uncached_ids,
            None,
            arith,
        );
    }
    let fresh = match build_valset_evaluation_with_metric_delta(
        plan.uncached_ids.as_slice(),
        batch,
        n,
        arith,
    ) {
        Ok(full) => full,
        Err(e) => return Err(e),
    };
    if let Some(cache) = &mut state.evaluation_cache {
        cache.put_batch(
            candidate,
            plan.uncached_ids.as_slice(),
            copy_values(&batch.outputs),
            copy_scores(&batch.scores),
            copy_rows(&batch.objective_scores),
        );
    }
    let ghost f = fresh;
    let ghost missing = views(plan.uncached_ids@);
    assert(built_from(f, missing, *batch, missing.len() as usize));
    let r = merge_cached_and_uncached(
        val_ids.as_slice(),
        &plan.cached,
        &plan.uncached_ids,
        Some(fresh),
        arith,
    );
    proof {
        assert(completed(r, views(val_ids@), contents(plan.cached), missing, Some(f)));
    }
    r
}

/// What became of a candidate that was added to the state.
#[derive(Debug, Clone, Copy, PartialEq, Eq, Structural)]
pub struct Registered {
    /// Its index.
    pub new_idx: ProgramIdx,
    /// Its mean score.
    pub average_score: Score,
    /// Whether no candidate has a better mean score.
    pub is_best_program: bool,
    /// What observers are told of the budget.
    pub budget: BudgetUpdatedEvent,
}

/// Add an evaluated candidate to the state, and count the evaluations.
///
/// # Errors
/// A configuration error where the frontier type needs objective scores and the
/// results have none; the candidate is added all the same.
pub fn register<Id: DataId>(
    state: &mut GEPAState<Id>,
    candidate: Candidate,
    parents: Vec<ProgramIdx>,
    outcome: FullValsetEvaluation<Id>,
) -> (r: Result<Registered>)
    requires
        old(state).maps_wf(),
        old(state).aligned(),
        outcome.wf(),
        old(state).total_num_evals + outcome.metric_evals <= usize::MAX,
        old(state).num_full_ds_evals < usize::MAX,
        forall|i: int|
            0 <= i < parents@.len() ==> (#[trigger] parents@[i])
                < old(state).program_candidates@.len(),
    ensures
        ({
            let total = (old(state).total_num_evals + outcome.metric_evals) as usize;
            let counted = GEPAState {
                total_num_evals: total,
                num_full_ds_evals: (old(state).num_full_ds_evals + 1) as usize,
                ..*old(state)
            };
            &&& final(state).extended(
                counted,
                parents@,
                candidate_entries(candidate),
                outcome.valset_evaluation,
                total,
            )
            &&& match r {
                Ok(new) => {
                    &&& new.new_idx == old(state).program_candidates@.len()
                    &&& new.average_score == final(state).mean_of(new.new_idx as int)
                    &&& new.is_best_program == new.average_score.at_least(
                        top_score(final(state).mean_scores()),
                    )
                    &&& new.budget == (BudgetUpdatedEvent {
                        iteration: old(state).i,
                        metric_calls_used: total,
                        metric_calls_delta: outcome.metric_evals,
                        metric_calls_remaining: None,
                    })
                    &&& !(old(state).frontier_type.needs_objectives()
                        && outcome.valset_evaluation.objective_scores_by_val_id is None)
                },
                Err(e) => {
                    &&& old(state).frontier_type.needs_objectives()
                    &&& outcome.valset_evaluation.objective_scores_by_val_id is None
                    &&& e matches GEPAError::Config(text)
                    &&& text@ == objectives_fault(old(state).frontier_type)
                },
            }
        }),
{
    let delta: usize = outcome.metric_evals;
    state.increment_evals(delta);
    state.num_full_ds_evals += 1;
    let total: usize = state.total_num_evals;
    let ghost n = state.program_candidates@.len();
    let new_idx: usize = match state.update_state_with_new_program(
        parents,
        candidate,
        outcome.valset_evaluation,
        total,
    ) {
        Ok(idx) => idx,
        Err(e) => return Err(e),
    };
    proof {
        assert(state.candidates_view().len() == n + 1);
        assert(state.subscores_view().len() == n + 1);
        assert(state.prog_candidate_mean_scores@.len() == n + 1);
    }
    let average_score = state.get_program_average_val_subset(new_idx).0;
    let scores = state.program_full_scores_val_set();
    let is_best_program = average_score.reaches(&greatest(&scores));
    Ok(
        Registered {
            new_idx,
            average_score,
            is_best_program,
            budget: BudgetUpdatedEvent {
                iteration: state.i,
                metric_calls_used: total,
                metric_calls_delta: delta,
                metric_calls_remaining: None,
            },
        },
    )
}

/// Whether a merge is accepted: the sum of its scores reaches the greater of the
/// sums of its parents' scores. Without scores it is not.
pub fn merge_accepted<Id: DataId, A: ScoreArithmetic>(
    proposal: &CandidateProposal<Id>,
    arith: &A,
) -> (b: bool)
    ensures
        match (proposal.subsample_scores_before, proposal.subsample_scores_after) {
            (Some(before), Some(after)) => exists|sum: Score| #[trigger]
                sums_to(*arith, after@, sum) && b == sum.at_least(top_score(before@)) && (b
                    ==> forall|i: int|
                    0 <= i < before@.len() && !before@[i].nan() ==> sum.at_least(
                        #[trigger] before@[i],
                    )),
            _ => !b,
        },
{
    match (&proposal.subsample_scores_before, &proposal.subsample_scores_after) {
        (Some(before), Some(after)) => {
            let parents = greatest(before);
            let sum = arith.sum(after);
            assert(sums_to(*arith, after@, sum));
            proof {
                if sum.at_least(parents) {
                    assert forall|i: int| 0 <= i < before@.len() && !before@[i].nan() implies
                        sum.at_least(#[trigger] before@[i]) by {
                        assert(parents.at_least(before@[i]));
                    }
                }
            }
            sum.reaches(&parents)
        },
        _ => false,
    }
}

/// What observers are told of a merge that was not accepted.
pub fn merge_rejected_event(iteration: usize, parents: &Vec<ProgramIdx>) -> (e: MergeRejectedEvent)
    ensures
        e.iteration == iteration,
        e.parent_ids@ == parents@,
        e.reason@ == "sum(new) < max(sum_p1, sum_p2)"@,
{
    MergeRejectedEvent {
        iteration,
        parent_ids: copy_indexes(parents),
        reason: "sum(new) < max(sum_p1, sum_p2)".to_owned(),
    }
}

/// What observers are told of a merge that was accepted.
pub fn merge_accepted_event(iteration: usize, new_idx: ProgramIdx, parents: &Vec<ProgramIdx>) -> (e:
    MergeAcceptedEvent)
    ensures
        e.iteration == iteration,
        e.new_candidate_idx == new_idx,
        e.parent_ids@ == parents@,
{
    MergeAcceptedEvent { iteration, new_candidate_idx: new_idx, parent_ids: copy_indexes(parents) }
}

/// Whether a mutation is accepted: the sum of its scores is above that of the
/// candidate that it was made from. Without scores it is not.
pub fn mutation_accepted<Id: DataId, A: ScoreArithmetic>(
    proposal: &CandidateProposal<Id>,
    arith: &A,
) -> (b: bool)
    ensures
        match (proposal.subsample_scores_before, proposal.subsample_scores_after) {
            (Some(before), Some(after)) => exists|x: Score, y: Score|
                #[trigger] sums_to(*arith, before@, x) && #[trigger] sums_to(*arith, after@, y)
                    && b == y.above(x),
            _ => !b,
        },
{
    match proposal.shows_improvement(arith) {
        Some(b) => b,
        None => false,
    }
}

/// Note that a mutation was accepted: a merge may follow.
pub fn note_mutation(merge: &mut MergeProposer)
    requires
        old(merge).merges_due < usize::MAX,
    ensures
        *final(merge) == old(merge).after_accepting(StepKind::ReflectiveMutation),
{
    merge.last_iter_found_new_program = true;
    merge.schedule_if_needed();
}

/// Record what an iteration came to. Returns the best mean score.
pub fn close_iteration<Id: DataId>(
    state: &mut GEPAState<Id>,
    accepted: bool,
    candidates_before: usize,
    tag: StepKind,
) -> (best_score: Score)
    requires
        old(state).maps_wf(),
        old(state).aligned(),
    ensures
        best_score == top_score(old(state).mean_scores()),
        final(state).maps_wf(),
        final(state).full_program_trace@ == old(state).full_program_trace@.push(
            TraceEntry {
                iteration: old(state).i,
                accepted,
                new_program_idx: if accepted && old(state).program_candidates@.len()
                    > candidates_before {
                    Some((old(state).program_candidates@.len() - 1) as usize)
                } else {
                    None
                },
                tag,
                total_num_evals: old(state).total_num_evals,
            },
        ),
        *final(state) == (GEPAState {
            full_program_trace: final(state).full_program_trace,
            ..*old(state)
        }),
{
    let n: usize = state.program_candidates.len();
    let new_program_idx: Option<usize> = if accepted && n > candidates_before {
        Some(n - 1)
    } else {
        None
    };
    let entry = TraceEntry {
        iteration: state.i,
        accepted,
        new_program_idx,
        tag,
        total_num_evals: state.total_num_evals,
    };
    let scores = state.program_full_scores_val_set();
    state.full_program_trace.push(entry);
    greatest(&scores)
}

} // verus!
