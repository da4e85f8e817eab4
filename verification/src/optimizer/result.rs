//! The result of a run: a snapshot of its state.
use std::collections::HashSet;

use serde_json::Value;
use vstd::prelude::*;

use crate::error::{GEPAError, Result};
use crate::keyed::{
    copy_map, from_pairs, pair_keys, pair_values, same_entries, KeyMap, MapKey,
};
use crate::optimizer::adapter::{
    candidate_copy, candidate_entries, candidate_get, component_text, Candidate, ObjectiveScores,
};
use crate::optimizer::data_loader::DataId;
use crate::optimizer::fronts::{copy_sets, sets_view};
use crate::optimizer::schema::{check_version, json_number_field, unsupported_text, version_of};
use crate::optimizer::state::GEPAState;
use crate::score::{best_place, best_place_in_range, Score};
use crate::utils::pareto::idxmax;
use crate::utils::programs::ProgramIdx;

verus! {

/// A snapshot of a run.
#[derive(Debug, Clone)]
pub struct GEPAResult<Id: DataId> {
    /// All candidates, in the order of their discovery.
    pub candidates: Vec<Candidate>,
    /// The parents of each candidate; `[None]` for the seed.
    pub parents: Vec<Vec<Option<ProgramIdx>>>,
    /// The mean score of each candidate.
    pub val_aggregate_scores: Vec<Score>,
    /// The scores of each candidate by validation example.
    pub val_subscores: Vec<KeyMap<Id, Score>>,
    /// The candidates that reach the best score on each validation example.
    pub per_val_instance_best_candidates: KeyMap<Id, HashSet<ProgramIdx>>,
    /// The evaluations used when each candidate was found.
    pub discovery_eval_counts: Vec<usize>,
    /// The mean of each objective, for each candidate, if there are objectives.
    pub val_aggregate_subscores: Option<Vec<ObjectiveScores>>,
    /// The candidates that reach the best mean of each objective.
    pub per_objective_best_candidates: Option<KeyMap<String, HashSet<ProgramIdx>>>,
    /// The best mean of each objective.
    pub objective_pareto_front: Option<ObjectiveScores>,
    /// The best output on each validation example, and the candidate that gave
    /// it, where outputs are kept.
    pub best_outputs_valset: Option<KeyMap<Id, (ProgramIdx, Value)>>,
    /// The number of examples that were evaluated.
    pub total_metric_calls: Option<usize>,
    /// The number of evaluations on the full validation set.
    pub num_full_val_evals: Option<usize>,
    /// The directory of the run's files.
    pub run_dir: Option<String>,
    /// The seed of the run.
    pub seed: Option<u64>,
    /// The component whose text stands for the whole candidate, if there is one.
    pub str_candidate_key: Option<String>,
    /// The version of the schema that the result is saved in.
    pub validation_schema_version: u32,
}

impl<Id: DataId> GEPAResult<Id> {
    /// The version of the schema that results are saved in.
    pub const SCHEMA_VERSION: u32 = 2;

    /// The number of candidates.
    pub fn num_candidates(&self) -> (n: usize)
        ensures
            n == self.candidates@.len(),
    {
        self.candidates.len()
    }

    /// The number of validation examples on the front.
    pub fn num_val_instances(&self) -> (n: usize)
        requires
            self.per_val_instance_best_candidates.wf(),
        ensures
            n == self.per_val_instance_best_candidates@.dom().len(),
    {
        self.per_val_instance_best_candidates.len()
    }

    /// The index of the candidate with the best mean score; of several, the
    /// one that was found first.
    ///
    /// # Errors
    /// [`GEPAError::NoCandidates`] where there is no candidate.
    pub fn best_idx(&self) -> (r: Result<ProgramIdx>)
        ensures
            match r {
                Ok(i) => self.val_aggregate_scores@.len() > 0 && i < self.val_aggregate_scores@.len()
                    && i == best_place(
                    self.val_aggregate_scores@,
                    self.val_aggregate_scores@.len() as int,
                ),
                Err(e) => e is NoCandidates && self.val_aggregate_scores@.len() == 0,
            },
    {
        proof {
            if self.val_aggregate_scores@.len() > 0 {
                best_place_in_range(
                    self.val_aggregate_scores@,
                    self.val_aggregate_scores@.len() as int,
                );
            }
        }
        idxmax(&self.val_aggregate_scores)
    }

    /// The candidate with the best mean score.
    ///
    /// # Errors
    /// [`GEPAError::NoCandidates`] where there is no candidate.
    pub fn best_candidate(&self) -> (r: Result<&Candidate>)
        requires
            self.val_aggregate_scores@.len() <= self.candidates@.len(),
        ensures
            match r {
                Ok(c) => self.val_aggregate_scores@.len() > 0 && *c == self.candidates@[best_place(
                    self.val_aggregate_scores@,
                    self.val_aggregate_scores@.len() as int,
                )],
                Err(e) => e is NoCandidates && self.val_aggregate_scores@.len() == 0,
            },
    {
        match self.best_idx() {
            Ok(i) => Ok(&self.candidates[i]),
            Err(e) => Err(e),
        }
    }

    /// The text that stands for the candidate with the best mean score: that
    /// of its component `str_candidate_key`, if both are there.
    pub fn best_candidate_str(&self) -> (r: Option<String>)
        requires
            self.val_aggregate_scores@.len() <= self.candidates@.len(),
        ensures
            (match r {
                Some(text) => Some(text@),
                None => None,
            }) == match self.str_candidate_key {
                Some(key) => if self.val_aggregate_scores@.len() > 0 {
                    component_text(
                        candidate_entries(
                            self.candidates@[best_place(
                                self.val_aggregate_scores@,
                                self.val_aggregate_scores@.len() as int,
                            )],
                        ),
                        key@,
                    )
                } else {
                    None
                },
                None => None,
            },
    {
        match &self.str_candidate_key {
            None => None,
            Some(key) => match self.best_idx() {
                Ok(i) => candidate_get(&self.candidates[i], key.as_str()),
                Err(_) => None,
            },
        }
    }

    /// Whether this is a snapshot of `state`.
    pub open spec fn snapshot_of(&self, state: GEPAState<Id>) -> bool {
        &&& self.candidates@.len() == state.program_candidates@.len()
        &&& forall|i: int|
            0 <= i < self.candidates@.len() ==> candidate_entries(#[trigger] self.candidates@[i])
                == candidate_entries(state.program_candidates@[i])
        &&& self.parents@.len() == state.parent_program_for_candidate@.len()
        &&& forall|i: int|
            0 <= i < self.parents@.len() ==> (#[trigger] self.parents@[i])@
                == state.parent_program_for_candidate@[i]@
        &&& self.val_aggregate_scores@ == state.mean_scores()
        &&& self.val_subscores@.len() == state.prog_candidate_val_subscores@.len()
        &&& forall|i: int|
            0 <= i < self.val_subscores@.len() ==> (#[trigger] self.val_subscores@[i]).wf()
                && same_entries(self.val_subscores@[i], state.prog_candidate_val_subscores@[i])
        &&& self.per_val_instance_best_candidates.wf()
        &&& sets_view(self.per_val_instance_best_candidates) == sets_view(
            state.program_at_pareto_front_valset,
        )
        &&& self.discovery_eval_counts@ == state.num_metric_calls_by_discovery@
        &&& match self.val_aggregate_subscores {
            Some(rows) => has_objectives(state.prog_candidate_objective_scores@) && rows@.len()
                == state.prog_candidate_objective_scores@.len() && forall|i: int|
                0 <= i < rows@.len() ==> (#[trigger] rows@[i]).wf() && same_entries(
                    rows@[i],
                    state.prog_candidate_objective_scores@[i],
                ),
            None => !has_objectives(state.prog_candidate_objective_scores@),
        }
        &&& match self.per_objective_best_candidates {
            Some(sets) => sets.wf() && sets.key_seq().len() > 0 && sets_view(sets) == sets_view(
                state.program_at_pareto_front_objectives,
            ),
            None => state.program_at_pareto_front_objectives.key_seq().len() == 0,
        }
        &&& match self.objective_pareto_front {
            Some(front) => front.wf() && front.key_seq().len() > 0 && same_entries(
                front,
                state.objective_pareto_front,
            ),
            None => state.objective_pareto_front.key_seq().len() == 0,
        }
        &&& match (self.best_outputs_valset, state.best_outputs_valset) {
            (Some(best), Some(kept)) => best.wf() && same_entries(best, kept),
            (None, None) => true,
            _ => false,
        }
        &&& self.total_metric_calls == Some(state.total_num_evals)
        &&& self.num_full_val_evals == Some(state.num_full_ds_evals)
        &&& self.validation_schema_version == Self::SCHEMA_VERSION
    }

    /// A snapshot of `state`.
    pub fn from_state(
        state: &GEPAState<Id>,
        run_dir: Option<String>,
        seed: Option<u64>,
        str_candidate_key: Option<String>,
    ) -> (r: Self)
        requires
            state.maps_wf(),
            state.program_candidates@.len() <= state.prog_candidate_val_subscores@.len(),
            state.program_candidates@.len() <= state.prog_candidate_mean_scores@.len(),
        ensures
            r.snapshot_of(*state),
            r.run_dir == run_dir,
            r.seed == seed,
            r.str_candidate_key == str_candidate_key,
    {
        let rows = copy_maps(&state.prog_candidate_objective_scores);
        let val_aggregate_subscores = if any_entries(&state.prog_candidate_objective_scores) {
            Some(rows)
        } else {
            None
        };
        let per_objective_best_candidates = if state.program_at_pareto_front_objectives.is_empty() {
            None
        } else {
            Some(copy_sets(&state.program_at_pareto_front_objectives))
        };
        let objective_pareto_front = if state.objective_pareto_front.is_empty() {
            None
        } else {
            Some(copy_map(&state.objective_pareto_front))
        };
        let best_outputs_valset = match &state.best_outputs_valset {
            Some(kept) => Some(copy_outputs(kept)),
            None => None,
        };
        GEPAResult {
            candidates: copy_candidates(&state.program_candidates),
            parents: copy_parents(&state.parent_program_for_candidate),
            val_aggregate_scores: state.program_full_scores_val_set(),
            val_subscores: copy_maps(&state.prog_candidate_val_subscores),
            per_val_instance_best_candidates: copy_sets(&state.program_at_pareto_front_valset),
            discovery_eval_counts: copy_counts(&state.num_metric_calls_by_discovery),
            val_aggregate_subscores,
            per_objective_best_candidates,
            objective_pareto_front,
            best_outputs_valset,
            total_metric_calls: Some(state.total_num_evals),
            num_full_val_evals: Some(state.num_full_ds_evals),
            run_dir,
            seed,
            str_candidate_key,
            validation_schema_version: Self::SCHEMA_VERSION,
        }
    }

    /// The version of the saved result `text`, if it is supported.
    ///
    /// # Errors
    /// A JSON error where the text is no JSON; a configuration error where the
    /// version is newer than this library's.
    pub fn saved_version(text: &str) -> (r: Result<u32>)
        ensures
            match json_number_field(text@, "validation_schema_version"@) {
                None => r matches Err(e) && e is Serde,
                Some(field) => if version_of(field) <= Self::SCHEMA_VERSION {
                    r matches Ok(version) && version == version_of(field)
                } else {
                    &&& r matches Err(e)
                    &&& e matches GEPAError::Config(message)
                    &&& message@ == unsupported_text(
                        "GEPAResult"@,
                        version_of(field),
                        Self::SCHEMA_VERSION,
                    )
                },
            },
    {
        check_version(text, Self::SCHEMA_VERSION, "GEPAResult")
    }
}

/// A copy of kept outputs.
fn copy_outputs<Id: DataId>(m: &KeyMap<Id, (ProgramIdx, Value)>) -> (copy: KeyMap<
    Id,
    (ProgramIdx, Value),
>)
    requires
        m.wf(),
    ensures
        copy.wf(),
        same_entries(copy, *m),
{
    let pairs = list_outputs(m);
    from_pairs(pairs)
}

/// The kept outputs as a list of pairs.
pub(crate) fn list_outputs<Id: DataId>(m: &KeyMap<Id, (ProgramIdx, Value)>) -> (pairs: Vec<
    (Id, (ProgramIdx, Value)),
>)
    requires
        m.wf(),
    ensures
        pair_keys(pairs@) == m.key_seq(),
        pair_values(pairs@) == m.value_seq(),
        pair_keys(pairs@).no_duplicates(),
{
    let n: usize = m.len();
    let mut pairs: Vec<(Id, (ProgramIdx, Value))> = Vec::new();
    let mut i: usize = 0;
    while i < n
        invariant
            m.wf(),
            n == m.key_seq().len(),
            i <= n,
            pairs@.len() == i,
            forall|j: int| 0 <= j < i ==> (#[trigger] pairs@[j]).0@ == m.key_seq()[j],
            forall|j: int| 0 <= j < i ==> (#[trigger] pairs@[j]).1 == m.value_seq()[j],
        decreases n - i,
    {
        let (p, output) = m.value_at(i);
        pairs.push((m.key_at(i).duplicate(), (*p, output.clone())));
        i += 1;
    }
    assert(pair_keys(pairs@) =~= m.key_seq());
    assert(pair_values(pairs@) =~= m.value_seq());
    pairs
}

/// Whether some map has an entry.
pub open spec fn has_objectives(rows: Seq<ObjectiveScores>) -> bool {
    exists|i: int| 0 <= i < rows.len() && (#[trigger] rows[i]).key_seq().len() > 0
}

fn any_entries(rows: &Vec<ObjectiveScores>) -> (b: bool)
    requires
        forall|i: int| 0 <= i < rows@.len() ==> (#[trigger] rows@[i]).wf(),
    ensures
        b == has_objectives(rows@),
{
    let mut i: usize = 0;
    while i < rows.len()
        invariant
            forall|j: int| 0 <= j < rows@.len() ==> (#[trigger] rows@[j]).wf(),
            i <= rows@.len(),
            forall|j: int| 0 <= j < i ==> (#[trigger] rows@[j]).key_seq().len() == 0,
        decreases rows@.len() - i,
    {
        assert(rows@[i as int].wf());
        if !rows[i].is_empty() {
            return true;
        }
        i += 1;
    }
    false
}

/// Copies of a list of maps.
pub fn copy_maps<K: crate::keyed::MapKey>(list: &Vec<KeyMap<K, Score>>) -> (copy: Vec<
    KeyMap<K, Score>,
>)
    requires
        forall|i: int| 0 <= i < list@.len() ==> (#[trigger] list@[i]).wf(),
    ensures
        copy@.len() == list@.len(),
        forall|i: int|
            0 <= i < copy@.len() ==> (#[trigger] copy@[i]).wf() && same_entries(copy@[i], list@[i]),
{
    let mut copy: Vec<KeyMap<K, Score>> = Vec::new();
    let mut i: usize = 0;
    while i < list.len()
        invariant
            forall|j: int| 0 <= j < list@.len() ==> (#[trigger] list@[j]).wf(),
            i <= list@.len(),
            copy@.len() == i,
            forall|j: int|
                0 <= j < i ==> (#[trigger] copy@[j]).wf() && same_entries(copy@[j], list@[j]),
        decreases list@.len() - i,
    {
        assert(list@[i as int].wf());
        copy.push(copy_map(&list[i]));
        i += 1;
    }
    copy
}

pub(crate) fn copy_candidates(list: &Vec<Candidate>) -> (copy: Vec<Candidate>)
    ensures
        copy@.len() == list@.len(),
        forall|i: int|
            0 <= i < copy@.len() ==> candidate_entries(#[trigger] copy@[i]) == candidate_entries(
                list@[i],
            ),
{
    let mut copy: Vec<Candidate> = Vec::new();
    let mut i: usize = 0;
    while i < list.len()
        invariant
            i <= list@.len(),
            copy@.len() == i,
            forall|j: int|
                0 <= j < i ==> candidate_entries(#[trigger] copy@[j]) == candidate_entries(list@[j]),
        decreases list@.len() - i,
    {
        copy.push(candidate_copy(&list[i]));
        i += 1;
    }
    copy
}

pub(crate) fn copy_parents(list: &Vec<Vec<Option<ProgramIdx>>>) -> (copy: Vec<Vec<Option<ProgramIdx>>>)
    ensures
        copy@.len() == list@.len(),
        forall|i: int| 0 <= i < copy@.len() ==> (#[trigger] copy@[i])@ == list@[i]@,
{
    let mut copy: Vec<Vec<Option<usize>>> = Vec::new();
    let mut i: usize = 0;
    while i < list.len()
        invariant
            i <= list@.len(),
            copy@.len() == i,
            forall|j: int| 0 <= j < i ==> (#[trigger] copy@[j])@ == list@[j]@,
        decreases list@.len() - i,
    {
        let mut row: Vec<Option<usize>> = Vec::new();
        let mut k: usize = 0;
        while k < list[i].len()
            invariant
                i < list@.len(),
                k <= list@[i as int]@.len(),
                row@ == list@[i as int]@.take(k as int),
            decreases list@[i as int]@.len() - k,
        {
            row.push(list[i][k]);
            k += 1;
            assert(row@ =~= list@[i as int]@.take(k as int));
        }
        assert(row@ =~= list@[i as int]@);
        copy.push(row);
        i += 1;
    }
    copy
}

pub(crate) fn copy_counts(list: &Vec<usize>) -> (copy: Vec<usize>)
    ensures
        copy@ == list@,
{
    let mut copy: Vec<usize> = Vec::new();
    let mut i: usize = 0;
    while i < list.len()
        invariant
            i <= list@.len(),
            copy@ == list@.take(i as int),
        decreases list@.len() - i,
    {
        copy.push(list[i]);
        i += 1;
        assert(copy@ =~= list@.take(i as int));
    }
    assert(copy@ =~= list@);
    copy
}

/// The best candidate of a snapshot has a greatest mean score, and was found
/// before every other that has it.
pub proof fn best_candidate_is_first_of_the_best<Id: DataId>(result: GEPAResult<Id>)
    requires
        result.val_aggregate_scores@.len() > 0,
        forall|i: int|
            0 <= i < result.val_aggregate_scores@.len()
                ==> !(#[trigger] result.val_aggregate_scores@[i]).nan(),
    ensures
        ({
            let scores = result.val_aggregate_scores@;
            let best = best_place(scores, scores.len() as int);
            &&& 0 <= best < scores.len()
            &&& forall|i: int|
                0 <= i < scores.len() ==> scores[best].at_least(#[trigger] scores[i])
            &&& forall|i: int| 0 <= i < best ==> scores[best].above(#[trigger] scores[i])
        }),
{
    let scores = result.val_aggregate_scores@;
    crate::score::best_place_is_first_maximum(scores, scores.len() as int);
}

} // verus!
