//! A run as a machine: what it waits for, and what it does with what comes.
//!
//! The caller evaluates candidates, builds reflective datasets and talks to the
//! language model; the machine decides what is to be done next.
use std::collections::HashSet;

use serde_json::Value;
use vstd::prelude::*;

use crate::error::{GEPAError, Result};
use crate::keyed::{views, KeyMap, MapKey};
use crate::laws::scores::top_score_is_the_greatest;
use crate::optimizer::adapter::{candidate_entries, Candidate, EvaluationBatch};
use crate::optimizer::data_loader::DataId;
use crate::optimizer::callbacks::BudgetUpdatedEvent;
use crate::optimizer::engine::{
    absorb_full_evaluation, absorbed, close_iteration, following, merge_accepted,
    mutation_accepted, next_iteration, note_mutation, plan_full_evaluation, register, step_kind,
    FullEvalPlan, Registered,
};
use crate::optimizer::evaluation::ValsetEvaluation;
use crate::optimizer::frontier::FrontierType;
use crate::optimizer::full_eval::FullValsetEvaluation;
use crate::optimizer::fronts::sets_view;
use crate::optimizer::laws::{added_candidate_keeps_the_means, added_candidate_keeps_the_shape};
use crate::optimizer::record::resumes;
use crate::optimizer::result::GEPAResult;
use crate::optimizer::state::{
    objectives_fault, programs_below, GEPAState, StepKind, TraceEntry,
};
use crate::proposer::base::CandidateProposal;
use crate::proposer::merge_proposer::{conclude_merge, MergePlan, MergeProposer};
use crate::proposer::reflective_mutation::{
    apply_texts, charged, collect_texts, conclude_mutation, first_unknown, reply_views, request_views,
    requests_for, texts_from, with_texts, ReflectiveMutationProposer, TextRequest, Trial,
};
use crate::score::{sums_to, top_score, Score, ScoreArithmetic};
use crate::strategies::batch_sampler::BatchSampler;
use crate::strategies::candidate_selector::CandidateSelector;
use crate::strategies::component_selector::ComponentSelector;
use crate::strategies::eval_policy::EvalPolicy;
use crate::strategies::markdown::Json;
use crate::text::text_views;
use crate::utils::programs::{members, ProgramIdx};

verus! {

/// What a run waits for.
#[allow(inconsistent_fields)]
pub enum Phase<Id: DataId> {
    /// The next iteration.
    Idle,
    /// Whether it is to stop.
    Deciding,
    /// The results of a candidate on a minibatch, with traces.
    TryingParent {
        /// The candidate and the minibatch.
        trial: Trial<Id>,
    },
    /// The reflective dataset for some components of the candidate.
    Reflecting {
        /// The candidate and the minibatch.
        trial: Trial<Id>,
        /// Its scores.
        scores: Vec<Score>,
        /// The components.
        names: Vec<String>,
    },
    /// The answers of the language model.
    Asking {
        /// The candidate and the minibatch.
        trial: Trial<Id>,
        /// Its scores.
        scores: Vec<Score>,
        /// What is asked.
        requests: Vec<TextRequest>,
    },
    /// The results of the mutated candidate on the minibatch.
    TryingMutation {
        /// The candidate that was mutated, and the minibatch.
        trial: Trial<Id>,
        /// Its scores.
        scores: Vec<Score>,
        /// The mutated candidate.
        candidate: Candidate,
    },
    /// The results of a merged candidate on some examples.
    TryingMerge {
        /// The merge.
        plan: MergePlan<Id>,
    },
    /// The results of a new candidate on the validation set.
    Evaluating {
        /// How the candidate was made.
        tag: StepKind,
        /// The candidate.
        candidate: Candidate,
        /// Its parents.
        parents: Vec<ProgramIdx>,
        /// What the cache has for it, and what is to be evaluated.
        plan: FullEvalPlan<Id>,
    },
    /// Word to add a new candidate to the state.
    Adding {
        /// How the candidate was made.
        tag: StepKind,
        /// The candidate.
        candidate: Candidate,
        /// Its parents.
        parents: Vec<ProgramIdx>,
        /// Its results on the validation set.
        outcome: FullValsetEvaluation<Id>,
    },
    /// Nothing: it is over.
    Over,
}

/// A run.
pub struct Run<Id: DataId, S, C, B, A> {
    /// Its state.
    pub state: GEPAState<Id>,
    /// The training examples.
    pub train_ids: Vec<Id>,
    /// The validation examples.
    pub val_ids: Vec<Id>,
    /// Makes mutations.
    pub mutation: ReflectiveMutationProposer<S, C, B>,
    /// Makes merges.
    pub merge: MergeProposer,
    /// The floating point operations.
    pub arith: A,
    /// What it waits for.
    pub phase: Phase<Id>,
}

/// The state is one that a run can go on from.
pub open spec fn sound<Id: DataId>(state: GEPAState<Id>) -> bool {
    &&& state.maps_wf()
    &&& state.aligned()
    &&& state.parents_precede()
    &&& state.fronts_in_range()
}

/// A run can go on from what was saved of a sound state.
pub proof fn resumed_state_is_sound<Id: DataId>(saved: GEPAState<Id>, state: GEPAState<Id>)
    requires
        sound(saved),
        resumes(saved, state),
        state.prog_candidate_mean_scores@.len() == state.prog_candidate_val_subscores@.len(),
        state.program_at_pareto_front_cartesian.key_seq().len() == 0,
    ensures
        sound(state),
{
    assert(state.candidates_view().len() == saved.candidates_view().len());
    assert(state.subscores_view().len() == saved.subscores_view().len());
    assert(state.objectives_seq().len() == saved.objectives_seq().len());
    let pairs = sets_view(state.program_at_pareto_front_cartesian);
    assert forall|k: (Id::V, Seq<char>)| !pairs.dom().contains(k) by {
        if pairs.dom().contains(k) {
            let j = state.program_at_pareto_front_cartesian.lemma_position(k);
        }
    }
    assert forall|i: int, j: int|
        0 <= i < state.parent_program_for_candidate@.len() && 0 <= j
            < state.parent_program_for_candidate@[i]@.len() implies (
    #[trigger] state.parent_program_for_candidate@[i]@[j] matches Some(p) ==> p < i) by {
        assert(state.parent_program_for_candidate@[i]@
            == saved.parent_program_for_candidate@[i]@);
    }
}

/// Whether every program in the sets has an index below `n`.
fn all_below<K: MapKey>(m: &KeyMap<K, HashSet<ProgramIdx>>, n: usize) -> (b: bool)
    requires
        m.wf(),
    ensures
        b == programs_below(sets_view(*m), n as nat),
{
    let ghost sets = sets_view(*m);
    let len: usize = m.len();
    let mut k: usize = 0;
    while k < len
        invariant
            m.wf(),
            sets == sets_view(*m),
            len == m.key_seq().len(),
            k <= len,
            forall|j: int, p: usize|
                0 <= j < k && #[trigger] m.value_seq()[j]@.contains(p) ==> p < n,
        decreases len - k,
    {
        let list = members(m.value_at(k));
        let mut j: usize = 0;
        while j < list.len()
            invariant
                m.wf(),
                sets == sets_view(*m),
                k < m.key_seq().len(),
                list@.to_set() == m.value_seq()[k as int]@,
                j <= list@.len(),
                forall|q: int| 0 <= q < j ==> (#[trigger] list@[q]) < n,
            decreases list@.len() - j,
        {
            if list[j] >= n {
                proof {
                    m.lemma_entry(k as int);
                    assert(list@.contains(list@[j as int]));
                    assert(list@.to_set().contains(list@[j as int]));
                    assert(sets[m.key_seq()[k as int]].contains(list@[j as int]));
                }
                return false;
            }
            j += 1;
        }
        assert forall|p: usize| #[trigger] m.value_seq()[k as int]@.contains(p) implies p < n by {
            assert(list@.to_set().contains(p));
            assert(list@.contains(p));
        }
        k += 1;
    }
    assert forall|id: K::V, p: usize|
        sets.dom().contains(id) && #[trigger] sets[id].contains(p) implies p < n by {
        let j = m.lemma_position(id);
        assert(m.value_seq()[j]@.contains(p));
    }
    true
}

/// Whether every parent came before its child.
fn check_parents(lists: &Vec<Vec<Option<ProgramIdx>>>) -> (b: bool)
    ensures
        b == (forall|i: int, j: int|
            0 <= i < lists@.len() && 0 <= j < lists@[i]@.len() ==> (
            #[trigger] lists@[i]@[j] matches Some(p) ==> p < i)),
{
    let mut i: usize = 0;
    while i < lists.len()
        invariant
            i <= lists@.len(),
            forall|a: int, c: int|
                0 <= a < i && 0 <= c < lists@[a]@.len() ==> (
                #[trigger] lists@[a]@[c] matches Some(p) ==> p < a),
        decreases lists@.len() - i,
    {
        let row = &lists[i];
        let mut j: usize = 0;
        while j < row.len()
            invariant
                i < lists@.len(),
                *row == lists@[i as int],
                j <= row@.len(),
                forall|c: int|
                    0 <= c < j ==> (#[trigger] row@[c] matches Some(p) ==> p < i),
            decreases row@.len() - j,
        {
            if let Some(p) = row[j] {
                if p >= i {
                    assert(lists@[i as int]@[j as int] == Some(p));
                    return false;
                }
            }
            j += 1;
        }
        i += 1;
    }
    true
}

/// Whether a run can go on from the state.
pub fn is_sound<Id: DataId>(state: &GEPAState<Id>) -> (b: bool)
    requires
        state.maps_wf(),
    ensures
        b == sound(*state),
{
    let n: usize = state.program_candidates.len();
    state.parent_program_for_candidate.len() == n && state.named_predictor_id_to_update_next.len()
        == n && state.prog_candidate_val_subscores.len() == n
        && state.prog_candidate_mean_scores.len() == n
        && state.prog_candidate_objective_scores.len() == n
        && state.num_metric_calls_by_discovery.len() == n && check_parents(
        &state.parent_program_for_candidate,
    ) && all_below(&state.program_at_pareto_front_valset, n) && all_below(
        &state.program_at_pareto_front_objectives,
        n,
    ) && all_below(&state.program_at_pareto_front_cartesian, n)
}

/// Every parent is a candidate of the state.
pub open spec fn known_parents<Id: DataId>(state: GEPAState<Id>, parents: Seq<usize>) -> bool {
    forall|i: int|
        0 <= i < parents.len() ==> (#[trigger] parents[i]) < state.program_candidates@.len()
}

/// Whether `after` is `before` with the record of an iteration that came to
/// nothing, or, with `accepted`, to the last candidate.
pub open spec fn recorded<Id: DataId>(
    before: GEPAState<Id>,
    after: GEPAState<Id>,
    accepted: bool,
    tag: StepKind,
) -> bool {
    &&& after == (GEPAState { full_program_trace: after.full_program_trace, ..before })
    &&& after.full_program_trace@ == before.full_program_trace@.push(
        TraceEntry {
            iteration: before.i,
            accepted,
            new_program_idx: if accepted {
                Some((before.program_candidates@.len() - 1) as usize)
            } else {
                None
            },
            tag,
            total_num_evals: before.total_num_evals,
        },
    )
}

/// The state of a new run is sound.
pub proof fn seeded_state_is_sound<Id: DataId>(
    state: GEPAState<Id>,
    entries: Seq<(Seq<char>, Seq<char>)>,
    evaluation: ValsetEvaluation<Id>,
    frontier_type: FrontierType,
    track_best_outputs: bool,
)
    requires
        state.seeded_by(entries, evaluation, frontier_type, track_best_outputs),
    ensures
        sound(state),
{
    assert(state.candidates_view().len() == 1);
}

/// Whether `after` is the run `before` with the new texts in place, and `r` the
/// best mean score where there are none.
pub open spec fn retexted<Id: DataId, S, C, B, A>(
    before: Run<Id, S, C, B, A>,
    after: Run<Id, S, C, B, A>,
    trial: Trial<Id>,
    scores: Vec<Score>,
    texts: Seq<(Seq<char>, Seq<char>)>,
    r: Result<Option<Score>>,
) -> bool {
    let entries = candidate_entries(trial.candidate);
    if texts.len() == 0 {
        &&& r matches Ok(Some(best))
        &&& best == top_score(before.state.mean_scores())
        &&& after.phase is Idle
        &&& recorded(before.state, after.state, false, StepKind::ReflectiveMutation)
    } else if first_unknown(texts, entries, 0) is Some {
        &&& r matches Err(e)
        &&& e matches GEPAError::Proposal(text)
        &&& text@ == "proposed component '"@ + texts[first_unknown(texts, entries, 0)->0].0
            + "' is not a key in the current candidate"@
        &&& after.phase is Over
        &&& after.state == before.state
    } else {
        &&& r matches Ok(None)
        &&& after.state == before.state
        &&& after.phase matches Phase::TryingMutation { trial: t, scores: s, candidate }
        &&& t == trial
        &&& s == scores
        &&& candidate_entries(candidate) == with_texts(entries, texts, texts.len() as int)
    }
}

impl<Id: DataId, S, C, B, A> Run<Id, S, C, B, A> {
    /// What it waits for fits its state.
    pub open spec fn phase_fits(&self) -> bool {
        match self.phase {
            Phase::Idle => true,
            Phase::Deciding => true,
            Phase::TryingParent { trial } => trial.fits(self.state),
            Phase::Reflecting { trial, scores, names } => trial.fits(self.state),
            Phase::Asking { trial, scores, requests } => trial.fits(self.state),
            Phase::TryingMutation { trial, scores, candidate } => trial.fits(self.state),
            Phase::TryingMerge { plan } => plan.fits(self.state),
            Phase::Evaluating { tag, candidate, parents, plan } => {
                &&& known_parents(self.state, parents@)
                &&& plan.fits(self.state, candidate_entries(candidate), views(self.val_ids@))
            },
            Phase::Adding { tag, candidate, parents, outcome } => {
                &&& known_parents(self.state, parents@)
                &&& outcome.wf()
            },
            Phase::Over => true,
        }
    }

    /// A mutation is under way only while no merge is due, and a merge only
    /// while one is.
    pub open spec fn in_turn(&self) -> bool {
        match self.phase {
            Phase::TryingParent { .. } => self.merge.merges_due == 0,
            Phase::Reflecting { .. } => self.merge.merges_due == 0,
            Phase::Asking { .. } => self.merge.merges_due == 0,
            Phase::TryingMutation { .. } => self.merge.merges_due == 0,
            Phase::TryingMerge { .. } => self.merge.merges_due > 0,
            Phase::Evaluating { tag, .. } => (self.merge.merges_due > 0) == (tag
                == StepKind::Merge),
            Phase::Adding { tag, .. } => (self.merge.merges_due > 0) == (tag == StepKind::Merge),
            _ => true,
        }
    }

    /// The state is sound, and what the run waits for fits it.
    pub open spec fn ok(&self) -> bool {
        &&& sound(self.state)
        &&& self.merge.wf()
        &&& self.phase_fits()
        &&& self.in_turn()
    }

    /// No more merges have succeeded or are due than may succeed in all.
    pub open spec fn within_merge_budget(&self) -> bool {
        self.merge.total_merges_tested + self.merge.merges_due <= self.merge.max_merge_invocations
    }

    /// Only the state, the proposers and the phase have changed.
    pub open spec fn same_setup(&self, other: &Self) -> bool {
        &&& self.train_ids == other.train_ids
        &&& self.val_ids == other.val_ids
        &&& self.arith == other.arith
    }

    /// Record that the iteration came to nothing.
    fn close_rejected(&mut self, tag: StepKind) -> (best: Score)
        requires
            sound(old(self).state),
            old(self).merge.wf(),
        ensures
            final(self).ok(),
            final(self).phase is Idle,
            recorded(old(self).state, final(self).state, false, tag),
            best == top_score(old(self).state.mean_scores()),
            final(self).mutation == old(self).mutation,
            final(self).merge == old(self).merge,
            final(self).same_setup(old(self)),
    {
        let n: usize = self.state.program_candidates.len();
        self.phase = Phase::Idle;
        close_iteration(&mut self.state, false, n, tag)
    }
}

impl<
    Id: DataId,
    S: CandidateSelector<Id>,
    C: ComponentSelector<Id>,
    B: BatchSampler<Id>,
    A: ScoreArithmetic,
> Run<Id, S, C, B, A> {
    /// The mean scores, and those of a candidate that is to be added, are the
    /// means of the scores.
    pub open spec fn means_hold(&self) -> bool {
        &&& self.state.means_by(self.arith)
        &&& (self.phase matches Phase::Adding { outcome, .. }
            ==> outcome.valset_evaluation.means_by(self.arith))
    }

    /// A run that starts from a state.
    pub fn new(
        state: GEPAState<Id>,
        train_ids: Vec<Id>,
        val_ids: Vec<Id>,
        mutation: ReflectiveMutationProposer<S, C, B>,
        merge: MergeProposer,
        arith: A,
    ) -> (run: Self)
        requires
            sound(state),
            merge.wf(),
        ensures
            run.ok(),
            state.means_by(arith) ==> run.means_hold(),
            run.phase is Idle,
            run.state == state,
            run.train_ids == train_ids,
            run.val_ids == val_ids,
            run.mutation == mutation,
            run.merge == merge,
            run.arith == arith,
    {
        Run { state, train_ids, val_ids, mutation, merge, arith, phase: Phase::Idle }
    }

    /// Go on to the next iteration. Then the run waits to hear whether to stop.
    pub fn advance(&mut self)
        requires
            old(self).ok(),
            old(self).phase is Idle,
        ensures
            old(self).means_hold() ==> final(self).means_hold(),
            final(self).ok(),
            final(self).phase is Deciding,
            final(self).state == (GEPAState { i: following(old(self).state.i), ..old(self).state }),
            final(self).mutation == old(self).mutation,
            final(self).merge == old(self).merge,
            final(self).same_setup(old(self)),
    {
        next_iteration(&mut self.state);
        self.phase = Phase::Deciding;
    }

    /// Begin an iteration, unless the run is to stop. A merge that is due comes
    /// first; else a candidate is chosen for a mutation. Returns the best mean
    /// score where the iteration comes to nothing at once.
    ///
    /// # Errors
    /// The errors of the choices for a mutation.
    pub fn begin(&mut self, stop: bool) -> (r: Result<Option<Score>>)
        requires
            old(self).ok(),
            old(self).phase is Deciding,
            old(self).mutation.batch_sampler.ready(
                views(old(self).train_ids@),
                old(self).state.i,
            ),
        ensures
            old(self).means_hold() ==> final(self).means_hold(),
            final(self).ok(),
            final(self).same_setup(old(self)),
            old(self).within_merge_budget() ==> final(self).within_merge_budget(),
            stop ==> {
                &&& r == Ok::<Option<Score>, GEPAError>(None)
                &&& *final(self) == (Run { phase: Phase::Over, ..*old(self) })
            },
            !stop && old(self).merge.merges_due > 0 ==> {
                &&& final(self).mutation == old(self).mutation
                &&& match r {
                    Ok(None) => {
                        &&& final(self).phase matches Phase::TryingMerge { plan }
                        &&& old(self).merge.prepared(
                            final(self).merge,
                            old(self).state,
                            Some(plan),
                        )
                        &&& old(self).merge.drew(
                            final(self).merge,
                            old(self).state,
                            old(self).arith,
                            Some(plan),
                        )
                        &&& final(self).state == old(self).state
                    },
                    Ok(Some(best)) => {
                        &&& final(self).phase is Idle
                        &&& old(self).merge.prepared(final(self).merge, old(self).state, None)
                        &&& old(self).merge.drew(
                            final(self).merge,
                            old(self).state,
                            old(self).arith,
                            None::<MergePlan<Id>>,
                        )
                        &&& recorded(
                            old(self).state,
                            final(self).state,
                            false,
                            StepKind::Merge,
                        )
                        &&& best == top_score(old(self).state.mean_scores())
                    },
                    Err(_) => false,
                }
            },
            forall|ids: Seq<Id::V>, iteration: usize|
                old(self).mutation.batch_sampler.ready(ids, iteration)
                    ==> #[trigger] final(self).mutation.batch_sampler.ready(ids, iteration),
            final(self).mutation.same_settings(old(self).mutation),
            !stop && old(self).merge.merges_due == 0 ==> {
                &&& final(self).state == old(self).state
                &&& final(self).merge == old(self).merge
                &&& match r {
                    Ok(None) => {
                        &&& final(self).phase matches Phase::TryingParent { trial }
                        &&& old(self).mutation.selected(
                            final(self).mutation,
                            old(self).state,
                            views(old(self).train_ids@),
                            Ok(trial),
                        )
                    },
                    Ok(Some(_)) => false,
                    Err(e) => {
                        &&& final(self).phase is Over
                        &&& old(self).mutation.selected(
                            final(self).mutation,
                            old(self).state,
                            views(old(self).train_ids@),
                            Err(e),
                        )
                    },
                }
            },
    {
        if stop {
            self.phase = Phase::Over;
            return Ok(None);
        }
        match step_kind(&self.merge) {
            StepKind::Merge => match self.merge.prepare(&self.state, &self.arith) {
                Some(plan) => {
                    self.phase = Phase::TryingMerge { plan };
                    Ok(None)
                },
                None => Ok(Some(self.close_rejected(StepKind::Merge))),
            },
            StepKind::ReflectiveMutation => match self.mutation.select(
                &self.state,
                &self.train_ids,
            ) {
                Ok(trial) => {
                    self.phase = Phase::TryingParent { trial };
                    Ok(None)
                },
                Err(e) => {
                    self.phase = Phase::Over;
                    Err(e)
                },
            },
        }
    }

    /// The candidate was tried on the minibatch: choose the components to
    /// update, unless the minibatch is left alone. Returns the best mean score
    /// where the iteration comes to nothing.
    ///
    /// # Errors
    /// The error of the choice.
    pub fn parent_tried(&mut self, scores: Vec<Score>, traces: Option<usize>) -> (r: Result<
        Option<Score>,
    >)
        requires
            old(self).ok(),
            old(self).phase matches Phase::TryingParent { trial }
                && old(self).state.total_num_evals + trial.ids@.len() <= usize::MAX,
        ensures
            old(self).means_hold() ==> final(self).means_hold(),
            final(self).ok(),
            final(self).same_setup(old(self)),
            final(self).mutation == old(self).mutation,
            final(self).merge == old(self).merge,
            old(self).phase matches Phase::TryingParent { trial } ==> {
                let after = charged(old(self).state, trial.ids@.len());
                if old(self).mutation.skips(scores@, traces) {
                    &&& r matches Ok(Some(best))
                    &&& best == top_score(after.mean_scores())
                    &&& final(self).phase is Idle
                    &&& recorded(after, final(self).state, false, StepKind::ReflectiveMutation)
                } else {
                    &&& final(self).state == (GEPAState {
                        named_predictor_id_to_update_next: final(self).state.named_predictor_id_to_update_next,
                        ..after
                    })
                    &&& match r {
                        Ok(None) => {
                            &&& final(self).phase matches Phase::Reflecting {
                                trial: t,
                                scores: s,
                                names,
                            }
                            &&& t == trial
                            &&& s == scores
                            &&& old(self).mutation.named(
                                after,
                                final(self).state,
                                trial,
                                scores@,
                                traces,
                                Ok(Some(names)),
                            )
                        },
                        Ok(Some(_)) => false,
                        Err(e) => {
                            &&& final(self).phase is Over
                            &&& old(self).mutation.named(
                                after,
                                final(self).state,
                                trial,
                                scores@,
                                traces,
                                Err(e),
                            )
                        },
                    }
                }
            },
    {
        let mut phase = Phase::Over;
        std::mem::swap(&mut phase, &mut self.phase);
        match phase {
            Phase::TryingParent { trial } => {
                match self.mutation.after_trial(&mut self.state, &trial, &scores, traces) {
                    Ok(None) => Ok(Some(self.close_rejected(StepKind::ReflectiveMutation))),
                    Ok(Some(names)) => {
                        self.phase = Phase::Reflecting { trial, scores, names };
                        Ok(None)
                    },
                    Err(e) => Err(e),
                }
            },
            _ => Ok(None),
        }
    }

    /// The reflective dataset was built: work out what to ask the language
    /// model.
    pub fn dataset_built(&mut self, dataset: &KeyMap<String, Vec<Json>>)
        requires
            old(self).ok(),
            old(self).phase is Reflecting,
            dataset.wf(),
        ensures
            old(self).means_hold() ==> final(self).means_hold(),
            final(self).ok(),
            final(self).same_setup(old(self)),
            final(self).state == old(self).state,
            final(self).mutation == old(self).mutation,
            final(self).merge == old(self).merge,
            old(self).phase matches Phase::Reflecting { trial, scores, names } ==> {
                &&& final(self).phase matches Phase::Asking { trial: t, scores: s, requests }
                &&& t == trial
                &&& s == scores
                &&& request_views(requests@) == requests_for(
                    old(self).mutation.reflection_prompt_template,
                    candidate_entries(trial.candidate),
                    dataset@,
                    text_views(names@),
                    names@.len() as int,
                )
            },
    {
        let mut phase = Phase::Over;
        std::mem::swap(&mut phase, &mut self.phase);
        if let Phase::Reflecting { trial, scores, names } = phase {
            let requests = self.mutation.requests(&trial.candidate, dataset, &names);
            self.phase = Phase::Asking { trial, scores, requests };
        }
    }

    /// The language model answered: put the new texts in place. Returns the best
    /// mean score where there are none and the iteration comes to nothing.
    ///
    /// # Errors
    /// A proposal error where the candidate lacks a component.
    pub fn answered(&mut self, replies: &Vec<Option<String>>) -> (r: Result<Option<Score>>)
        requires
            old(self).ok(),
            old(self).phase matches Phase::Asking { requests, .. } && requests@.len()
                == replies@.len(),
        ensures
            old(self).means_hold() ==> final(self).means_hold(),
            final(self).ok(),
            final(self).same_setup(old(self)),
            final(self).mutation == old(self).mutation,
            final(self).merge == old(self).merge,
            old(self).phase matches Phase::Asking { trial, scores, requests } ==> retexted(
                *old(self),
                *final(self),
                trial,
                scores,
                texts_from(
                    request_views(requests@),
                    reply_views(replies@),
                    requests@.len() as int,
                ),
                r,
            ),
    {
        let mut phase = Phase::Over;
        std::mem::swap(&mut phase, &mut self.phase);
        match phase {
            Phase::Asking { trial, scores, requests } => {
                let texts = collect_texts(&requests, replies);
                self.apply(trial, scores, &texts)
            },
            _ => Ok(None),
        }
    }

    /// The evaluator proposed new texts of its own: put them in place. Returns the
    /// best mean score where there are none and the iteration comes to nothing.
    ///
    /// # Errors
    /// A proposal error where the candidate lacks a component.
    pub fn texts_given(&mut self, texts: &Candidate) -> (r: Result<Option<Score>>)
        requires
            old(self).ok(),
            old(self).phase is Reflecting,
        ensures
            old(self).means_hold() ==> final(self).means_hold(),
            final(self).ok(),
            final(self).same_setup(old(self)),
            final(self).mutation == old(self).mutation,
            final(self).merge == old(self).merge,
            old(self).phase matches Phase::Reflecting { trial, scores, names } ==> retexted(
                *old(self),
                *final(self),
                trial,
                scores,
                candidate_entries(*texts),
                r,
            ),
    {
        let mut phase = Phase::Over;
        std::mem::swap(&mut phase, &mut self.phase);
        match phase {
            Phase::Reflecting { trial, scores, names: _ } => self.apply(trial, scores, texts),
            _ => Ok(None),
        }
    }

    /// Put new texts in place.
    fn apply(&mut self, trial: Trial<Id>, scores: Vec<Score>, texts: &Candidate) -> (r: Result<
        Option<Score>,
    >)
        requires
            sound(old(self).state),
            old(self).merge.wf(),
            old(self).merge.merges_due == 0,
            old(self).phase is Over,
            trial.fits(old(self).state),
        ensures
            final(self).ok(),
            final(self).same_setup(old(self)),
            final(self).mutation == old(self).mutation,
            final(self).merge == old(self).merge,
            retexted(
                *old(self),
                *final(self),
                trial,
                scores,
                candidate_entries(*texts),
                r,
            ),
    {
        match apply_texts(&trial.candidate, texts) {
            Ok(None) => Ok(Some(self.close_rejected(StepKind::ReflectiveMutation))),
            Ok(Some(candidate)) => {
                self.phase = Phase::TryingMutation { trial, scores, candidate };
                Ok(None)
            },
            Err(e) => Err(e),
        }
    }

    /// Wait for the results of an accepted candidate on the validation set.
    fn accept(&mut self, candidate: Candidate, parents: Vec<ProgramIdx>, tag: StepKind)
        requires
            sound(old(self).state),
            old(self).merge.wf(),
            known_parents(old(self).state, parents@),
            (old(self).merge.merges_due > 0) == (tag == StepKind::Merge),
        ensures
            final(self).ok(),
            final(self).same_setup(old(self)),
            final(self).state == old(self).state,
            final(self).mutation == old(self).mutation,
            final(self).merge == old(self).merge,
            final(self).phase matches Phase::Evaluating { tag: t, candidate: c, parents: p, plan }
                && t == tag && c == candidate && p == parents,
    {
        let plan = plan_full_evaluation(&self.state, &candidate, &self.val_ids);
        self.phase = Phase::Evaluating { tag, candidate, parents, plan };
    }

    /// The mutated candidate was tried on the minibatch: it is accepted where
    /// the sum of its scores is above that of the candidate that it was made
    /// from. Returns the best mean score where it is not.
    pub fn mutation_tried(&mut self, new_scores: Vec<Score>) -> (r: Option<Score>)
        requires
            old(self).ok(),
            old(self).phase matches Phase::TryingMutation { trial, .. }
                && old(self).state.total_num_evals + trial.ids@.len() <= usize::MAX,
        ensures
            old(self).means_hold() ==> final(self).means_hold(),
            final(self).ok(),
            final(self).same_setup(old(self)),
            final(self).mutation == old(self).mutation,
            final(self).merge == old(self).merge,
            old(self).phase matches Phase::TryingMutation { trial, scores, candidate } ==> {
                let after = charged(old(self).state, trial.ids@.len());
                exists|x: Score, y: Score|
                    {
                        &&& #[trigger] sums_to(old(self).arith, scores@, x)
                        &&& #[trigger] sums_to(old(self).arith, new_scores@, y)
                        &&& if y.above(x) {
                            &&& r is None
                            &&& final(self).state == after
                            &&& final(self).phase matches Phase::Evaluating {
                                tag,
                                candidate: c,
                                parents,
                                plan,
                            }
                            &&& tag == StepKind::ReflectiveMutation
                            &&& c == candidate
                            &&& parents@ == seq![trial.parent]
                        } else {
                            &&& r == Some(top_score(after.mean_scores()))
                            &&& final(self).phase is Idle
                            &&& recorded(
                                after,
                                final(self).state,
                                false,
                                StepKind::ReflectiveMutation,
                            )
                        }
                    }
            },
    {
        let mut phase = Phase::Over;
        std::mem::swap(&mut phase, &mut self.phase);
        match phase {
            Phase::TryingMutation { trial, scores, candidate } => {
                let proposal = conclude_mutation(
                    &mut self.state,
                    trial,
                    scores,
                    candidate,
                    new_scores,
                );
                if mutation_accepted(&proposal, &self.arith) {
                    let CandidateProposal { candidate, parent_program_ids, .. } = proposal;
                    self.accept(candidate, parent_program_ids, StepKind::ReflectiveMutation);
                    None
                } else {
                    Some(self.close_rejected(StepKind::ReflectiveMutation))
                }
            },
            _ => None,
        }
    }

    /// The merged candidate was tried: it is accepted where the sum of its
    /// scores reaches the greater of the sums of its parents' scores. Returns the
    /// best mean score where it is not.
    pub fn merge_tried(&mut self, new_scores: Vec<Score>) -> (r: Option<Score>)
        requires
            old(self).ok(),
            old(self).phase matches Phase::TryingMerge { plan } && old(self).state.total_num_evals
                + plan.subsample_ids@.len() <= usize::MAX,
        ensures
            old(self).means_hold() ==> final(self).means_hold(),
            final(self).ok(),
            final(self).same_setup(old(self)),
            final(self).mutation == old(self).mutation,
            final(self).merge == old(self).merge,
            old(self).phase matches Phase::TryingMerge { plan } ==> {
                let after = charged(old(self).state, plan.subsample_ids@.len());
                exists|x1: Score, x2: Score, y: Score|
                    {
                        &&& #[trigger] sums_to(old(self).arith, plan.scores1@, x1)
                        &&& #[trigger] sums_to(old(self).arith, plan.scores2@, x2)
                        &&& #[trigger] sums_to(old(self).arith, new_scores@, y)
                        &&& r is None && !x1.nan() ==> y.at_least(x1)
                        &&& r is None && !x2.nan() ==> y.at_least(x2)
                        &&& if y.at_least(top_score(seq![x1, x2])) {
                            &&& r is None
                            &&& final(self).state == after
                            &&& final(self).phase matches Phase::Evaluating {
                                tag,
                                candidate: c,
                                parents,
                                plan: p,
                            }
                            &&& tag == StepKind::Merge
                            &&& c == plan.program
                            &&& parents@ == seq![plan.id1, plan.id2]
                        } else {
                            &&& r == Some(top_score(after.mean_scores()))
                            &&& final(self).phase is Idle
                            &&& recorded(after, final(self).state, false, StepKind::Merge)
                        }
                    }
            },
    {
        let mut phase = Phase::Over;
        std::mem::swap(&mut phase, &mut self.phase);
        match phase {
            Phase::TryingMerge { plan } => {
                self.state.increment_evals(plan.subsample_ids.len());
                let ghost p = plan;
                let proposal = conclude_merge(plan, new_scores, &self.arith);
                proof {
                    let before = proposal.subsample_scores_before->0@;
                    assert(before =~= seq![before[0], before[1]]);
                    top_score_is_the_greatest(before);
                }
                if merge_accepted(&proposal, &self.arith) {
                    let CandidateProposal { candidate, parent_program_ids, .. } = proposal;
                    self.accept(candidate, parent_program_ids, StepKind::Merge);
                    None
                } else {
                    Some(self.close_rejected(StepKind::Merge))
                }
            },
            _ => None,
        }
    }

    /// The new candidate was evaluated on the examples that the cache lacks: put
    /// the results together. Then the run waits to add it to the state.
    ///
    /// # Errors
    /// An evaluation error where the batch is not valid or a result is missing.
    pub fn evaluated<T>(&mut self, batch: &EvaluationBatch<T, Value>) -> (r: Result<()>)
        requires
            old(self).ok(),
            batch.wf(),
            old(self).phase is Evaluating,
        ensures
            old(self).means_hold() ==> final(self).means_hold(),
            final(self).ok(),
            final(self).same_setup(old(self)),
            final(self).mutation == old(self).mutation,
            final(self).merge == old(self).merge,
            old(self).phase matches Phase::Evaluating { tag, candidate, parents, plan } ==> match r {
                Ok(()) => {
                    &&& final(self).phase matches Phase::Adding {
                        tag: t,
                        candidate: c,
                        parents: p,
                        outcome,
                    }
                    &&& t == tag
                    &&& c == candidate
                    &&& p == parents
                    &&& outcome.valset_evaluation.means_by(old(self).arith)
                    &&& outcome.metric_evals == plan.uncached_ids@.len()
                    &&& absorbed(
                        old(self).state,
                        final(self).state,
                        candidate_entries(candidate),
                        views(old(self).val_ids@),
                        plan,
                        *batch,
                        Ok(outcome),
                    )
                },
                Err(e) => {
                    &&& final(self).phase is Over
                    &&& absorbed(
                        old(self).state,
                        final(self).state,
                        candidate_entries(candidate),
                        views(old(self).val_ids@),
                        plan,
                        *batch,
                        Err(e),
                    )
                },
            },
    {
        let mut phase = Phase::Over;
        std::mem::swap(&mut phase, &mut self.phase);
        match phase {
            Phase::Evaluating { tag, candidate, parents, plan } => {
                match absorb_full_evaluation(
                    &mut self.state,
                    &candidate,
                    &self.val_ids,
                    &plan,
                    batch,
                    &self.arith,
                ) {
                    Ok(outcome) => {
                        self.phase = Phase::Adding { tag, candidate, parents, outcome };
                        Ok(())
                    },
                    Err(e) => Err(e),
                }
            },
            _ => Ok(()),
        }
    }

    /// Add the new candidate to the state. After a mutation a merge may follow;
    /// after a merge one fewer is due. Returns what became of the candidate, and
    /// the best mean score.
    ///
    /// # Errors
    /// A configuration error where objective scores are needed and missing.
    pub fn added(&mut self) -> (r: Result<(Registered, Score)>)
        requires
            old(self).ok(),
            old(self).phase matches Phase::Adding { outcome, .. }
                && old(self).state.total_num_evals + outcome.metric_evals <= usize::MAX,
            old(self).state.num_full_ds_evals < usize::MAX,
            old(self).merge.total_merges_tested < usize::MAX,
        ensures
            old(self).means_hold() ==> final(self).means_hold(),
            final(self).same_setup(old(self)),
            final(self).mutation == old(self).mutation,
            old(self).within_merge_budget() ==> final(self).within_merge_budget(),
            old(self).phase matches Phase::Adding { tag, candidate, parents, outcome } ==> {
                let before = old(self).state;
                let n = before.program_candidates@.len();
                let total = (before.total_num_evals + outcome.metric_evals) as usize;
                let counted = GEPAState {
                    total_num_evals: total,
                    num_full_ds_evals: (before.num_full_ds_evals + 1) as usize,
                    ..before
                };
                if before.frontier_type.needs_objectives()
                    && outcome.valset_evaluation.objective_scores_by_val_id is None {
                    &&& r matches Err(e)
                    &&& e matches GEPAError::Config(text)
                    &&& text@ == objectives_fault(before.frontier_type)
                    &&& final(self).phase is Over
                    &&& final(self).merge == old(self).merge
                    &&& final(self).state.extended(
                        counted,
                        parents@,
                        candidate_entries(candidate),
                        outcome.valset_evaluation,
                        total,
                    )
                } else {
                    &&& r matches Ok((new, best))
                    &&& final(self).ok()
                    &&& final(self).phase is Idle
                    &&& final(self).merge == old(self).merge.after_accepting(tag)
                    &&& new.new_idx == n
                    &&& new.average_score == final(self).state.mean_of(n as int)
                    &&& best == top_score(final(self).state.mean_scores())
                    &&& new.is_best_program == new.average_score.at_least(best)
                    &&& new.budget == (BudgetUpdatedEvent {
                        iteration: before.i,
                        metric_calls_used: total,
                        metric_calls_delta: outcome.metric_evals,
                        metric_calls_remaining: None,
                    })
                    &&& exists|added: GEPAState<Id>|
                        #[trigger] added.extended(
                            counted,
                            parents@,
                            candidate_entries(candidate),
                            outcome.valset_evaluation,
                            total,
                        ) && recorded(added, final(self).state, true, tag)
                }
            },
    {
        let mut phase = Phase::Over;
        std::mem::swap(&mut phase, &mut self.phase);
        match phase {
            Phase::Adding { tag, candidate, parents, outcome } => {
                let n: usize = self.state.program_candidates.len();
                let ghost evaluation = outcome.valset_evaluation;
                let ghost entries = candidate_entries(candidate);
                let ghost pv = parents@;
                let ghost counted = GEPAState {
                    total_num_evals: (self.state.total_num_evals + outcome.metric_evals) as usize,
                    num_full_ds_evals: (self.state.num_full_ds_evals + 1) as usize,
                    ..self.state
                };
                let registered = register(&mut self.state, candidate, parents, outcome);
                proof {
                    if old(self).means_hold() {
                        added_candidate_keeps_the_means(
                            counted,
                            self.state,
                            pv,
                            entries,
                            evaluation,
                            counted.total_num_evals,
                            self.arith,
                        );
                    }
                }
                let new = match registered {
                    Ok(new) => new,
                    Err(e) => return Err(e),
                };
                proof {
                    added_candidate_keeps_the_shape(
                        counted,
                        self.state,
                        pv,
                        entries,
                        evaluation,
                        counted.total_num_evals,
                    );
                    assert(self.state.candidates_view().len() == n + 1);
                }
                match tag {
                    StepKind::Merge => self.merge.record_accepted(),
                    StepKind::ReflectiveMutation => note_mutation(&mut self.merge),
                }
                self.phase = Phase::Idle;
                let ghost added = self.state;
                let best = close_iteration(&mut self.state, true, n, tag);
                proof {
                    assert(self.state.mean_scores() =~= added.mean_scores());
                    assert(self.state.mean_of(n as int) == added.mean_of(n as int));
                    assert(recorded(added, self.state, true, tag));
                    assert(sound(self.state));
                }
                Ok((new, best))
            },
            _ => Err(GEPAError::NoCandidates),
        }
    }
}

impl<Id: DataId, S, C, B, A> Run<Id, S, C, B, A> {
    /// The best candidate by the policy, and a snapshot of the run.
    ///
    /// # Errors
    /// The error of the policy.
    pub fn finish<P: EvalPolicy<Id>>(
        &self,
        policy: &P,
        run_dir: Option<String>,
        seed: Option<u64>,
        str_candidate_key: Option<String>,
    ) -> (r: Result<(ProgramIdx, GEPAResult<Id>)>)
        requires
            self.ok(),
        ensures
            match r {
                Ok((best, _)) => policy.may_judge(self.state, Ok(best)),
                Err(e) => policy.may_judge(self.state, Err(e)),
            },
            r matches Ok((_, result)) ==> {
                &&& self.state.program_candidates@.len() > 0
                &&& result.snapshot_of(self.state)
                &&& result.run_dir == run_dir
                &&& result.seed == seed
                &&& result.str_candidate_key == str_candidate_key
            },
    {
        match policy.get_best_program(&self.state) {
            Ok(best) => Ok(
                (best, GEPAResult::from_state(&self.state, run_dir, seed, str_candidate_key)),
            ),
            Err(e) => Err(e),
        }
    }
}

} // verus!
