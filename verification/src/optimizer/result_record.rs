//! What is saved of a result.
use serde_json::Value;
use vstd::prelude::*;

use crate::keyed::{from_pairs, mapped, to_pairs};
use crate::optimizer::adapter::{candidate_entries, Candidate};
use crate::optimizer::data_loader::DataId;
use crate::optimizer::fronts::sets_view;
use crate::optimizer::full_eval::copy_scores;
use crate::optimizer::record::{
    lemma_maps_back, lemma_sets_back, list_maps, list_sets, lists_map, lists_sets, mapped_sets,
    read_maps, read_sets,
};
use crate::optimizer::result::{
    copy_candidates, copy_counts, copy_parents, list_outputs, GEPAResult,
};
use crate::score::Score;
use crate::utils::programs::ProgramIdx;

verus! {

/// What is saved of a result: maps as lists of pairs, and sets as lists.
pub struct ResultRecord<Id: DataId> {
    /// The candidates.
    pub candidates: Vec<Candidate>,
    /// Their parents.
    pub parents: Vec<Vec<Option<ProgramIdx>>>,
    /// Their mean scores.
    pub val_aggregate_scores: Vec<Score>,
    /// Their scores by example.
    pub val_subscores: Vec<Vec<(Id, Score)>>,
    /// The best candidates on each example.
    pub per_val_instance_best_candidates: Vec<(Id, Vec<ProgramIdx>)>,
    /// The evaluations used when each was found.
    pub discovery_eval_counts: Vec<usize>,
    /// Their objective means.
    pub val_aggregate_subscores: Option<Vec<Vec<(String, Score)>>>,
    /// The best candidates by objective.
    pub per_objective_best_candidates: Option<Vec<(String, Vec<ProgramIdx>)>>,
    /// The best mean of each objective.
    pub objective_pareto_front: Option<Vec<(String, Score)>>,
    /// The best output on each example, and the candidate that gave it.
    pub best_outputs_valset: Option<Vec<(Id, (ProgramIdx, Value))>>,
    /// The number of examples that were evaluated.
    pub total_metric_calls: Option<usize>,
    /// The number of evaluations on the full validation set.
    pub num_full_val_evals: Option<usize>,
    /// The directory of the run's files.
    pub run_dir: Option<String>,
    /// The seed of the run.
    pub seed: Option<u64>,
    /// The component whose text stands for the whole candidate.
    pub str_candidate_key: Option<String>,
    /// The version of the schema.
    pub validation_schema_version: u32,
}

/// The views of optional strings.
pub open spec fn optional_text(s: Option<String>) -> Option<Seq<char>> {
    match s {
        Some(text) => Some(text@),
        None => None,
    }
}

fn copy_optional_text(s: &Option<String>) -> (copy: Option<String>)
    ensures
        optional_text(copy) == optional_text(*s),
{
    match s {
        Some(text) => Some(text.clone()),
        None => None,
    }
}

impl<Id: DataId> ResultRecord<Id> {
    /// Whether this is what is saved of `result`.
    pub open spec fn describes(&self, result: GEPAResult<Id>) -> bool {
        &&& self.candidates@.len() == result.candidates@.len()
        &&& forall|i: int|
            0 <= i < self.candidates@.len() ==> candidate_entries(#[trigger] self.candidates@[i])
                == candidate_entries(result.candidates@[i])
        &&& self.parents@.len() == result.parents@.len()
        &&& forall|i: int|
            0 <= i < self.parents@.len() ==> (#[trigger] self.parents@[i])@
                == result.parents@[i]@
        &&& self.val_aggregate_scores@ == result.val_aggregate_scores@
        &&& self.val_subscores@.len() == result.val_subscores@.len()
        &&& forall|i: int|
            0 <= i < self.val_subscores@.len() ==> lists_map(
                (#[trigger] self.val_subscores@[i])@,
                result.val_subscores@[i],
            )
        &&& lists_sets(
            self.per_val_instance_best_candidates@,
            result.per_val_instance_best_candidates,
        )
        &&& self.discovery_eval_counts@ == result.discovery_eval_counts@
        &&& match (self.val_aggregate_subscores, result.val_aggregate_subscores) {
            (Some(lists), Some(maps)) => lists@.len() == maps@.len() && forall|i: int|
                0 <= i < lists@.len() ==> lists_map((#[trigger] lists@[i])@, maps@[i]),
            (None, None) => true,
            _ => false,
        }
        &&& match (self.per_objective_best_candidates, result.per_objective_best_candidates) {
            (Some(pairs), Some(sets)) => lists_sets(pairs@, sets),
            (None, None) => true,
            _ => false,
        }
        &&& match (self.objective_pareto_front, result.objective_pareto_front) {
            (Some(pairs), Some(front)) => lists_map(pairs@, front),
            (None, None) => true,
            _ => false,
        }
        &&& match (self.best_outputs_valset, result.best_outputs_valset) {
            (Some(pairs), Some(best)) => lists_map(pairs@, best),
            (None, None) => true,
            _ => false,
        }
        &&& self.total_metric_calls == result.total_metric_calls
        &&& self.num_full_val_evals == result.num_full_val_evals
        &&& optional_text(self.run_dir) == optional_text(result.run_dir)
        &&& self.seed == result.seed
        &&& optional_text(self.str_candidate_key) == optional_text(result.str_candidate_key)
        &&& self.validation_schema_version == result.validation_schema_version
    }
}

/// Whether `after` is the same result as `before`.
pub open spec fn same_result<Id: DataId>(before: GEPAResult<Id>, after: GEPAResult<Id>) -> bool {
    &&& after.maps_wf()
    &&& after.candidates@.len() == before.candidates@.len()
    &&& forall|i: int|
        0 <= i < after.candidates@.len() ==> candidate_entries(#[trigger] after.candidates@[i])
            == candidate_entries(before.candidates@[i])
    &&& after.parents@.len() == before.parents@.len()
    &&& forall|i: int|
        0 <= i < after.parents@.len() ==> (#[trigger] after.parents@[i])@ == before.parents@[i]@
    &&& after.val_aggregate_scores@ == before.val_aggregate_scores@
    &&& after.val_subscores@.len() == before.val_subscores@.len()
    &&& forall|i: int|
        0 <= i < after.val_subscores@.len() ==> (#[trigger] after.val_subscores@[i])@
            == before.val_subscores@[i]@
    &&& sets_view(after.per_val_instance_best_candidates) == sets_view(
        before.per_val_instance_best_candidates,
    )
    &&& after.discovery_eval_counts@ == before.discovery_eval_counts@
    &&& match (before.val_aggregate_subscores, after.val_aggregate_subscores) {
        (Some(a), Some(b)) => a@.len() == b@.len() && forall|i: int|
            0 <= i < a@.len() ==> (#[trigger] a@[i])@ == b@[i]@,
        (None, None) => true,
        _ => false,
    }
    &&& match (before.per_objective_best_candidates, after.per_objective_best_candidates) {
        (Some(a), Some(b)) => sets_view(a) == sets_view(b),
        (None, None) => true,
        _ => false,
    }
    &&& match (before.objective_pareto_front, after.objective_pareto_front) {
        (Some(a), Some(b)) => a@ == b@,
        (None, None) => true,
        _ => false,
    }
    &&& match (before.best_outputs_valset, after.best_outputs_valset) {
        (Some(a), Some(b)) => a@ == b@,
        (None, None) => true,
        _ => false,
    }
    &&& after.total_metric_calls == before.total_metric_calls
    &&& after.num_full_val_evals == before.num_full_val_evals
    &&& optional_text(after.run_dir) == optional_text(before.run_dir)
    &&& after.seed == before.seed
    &&& optional_text(after.str_candidate_key) == optional_text(before.str_candidate_key)
    &&& after.validation_schema_version == before.validation_schema_version
}

impl<Id: DataId> GEPAResult<Id> {
    /// Every map of the result is valid.
    pub open spec fn maps_wf(&self) -> bool {
        &&& forall|i: int|
            0 <= i < self.val_subscores@.len() ==> (#[trigger] self.val_subscores@[i]).wf()
        &&& self.per_val_instance_best_candidates.wf()
        &&& (self.val_aggregate_subscores matches Some(rows) ==> forall|i: int|
            0 <= i < rows@.len() ==> (#[trigger] rows@[i]).wf())
        &&& (self.per_objective_best_candidates matches Some(sets) ==> sets.wf())
        &&& (self.objective_pareto_front matches Some(front) ==> front.wf())
        &&& (self.best_outputs_valset matches Some(best) ==> best.wf())
    }

    /// What is saved of the result.
    pub fn record(&self) -> (record: ResultRecord<Id>)
        requires
            self.maps_wf(),
        ensures
            record.describes(*self),
    {
        ResultRecord {
            candidates: copy_candidates(&self.candidates),
            parents: copy_parents(&self.parents),
            val_aggregate_scores: copy_scores(&self.val_aggregate_scores),
            val_subscores: list_maps(&self.val_subscores),
            per_val_instance_best_candidates: list_sets(&self.per_val_instance_best_candidates),
            discovery_eval_counts: copy_counts(&self.discovery_eval_counts),
            val_aggregate_subscores: match &self.val_aggregate_subscores {
                Some(rows) => Some(list_maps(rows)),
                None => None,
            },
            per_objective_best_candidates: match &self.per_objective_best_candidates {
                Some(sets) => Some(list_sets(sets)),
                None => None,
            },
            objective_pareto_front: match &self.objective_pareto_front {
                Some(front) => Some(to_pairs(front)),
                None => None,
            },
            best_outputs_valset: match &self.best_outputs_valset {
                Some(best) => Some(list_outputs(best)),
                None => None,
            },
            total_metric_calls: self.total_metric_calls,
            num_full_val_evals: self.num_full_val_evals,
            run_dir: copy_optional_text(&self.run_dir),
            seed: self.seed,
            str_candidate_key: copy_optional_text(&self.str_candidate_key),
            validation_schema_version: self.validation_schema_version,
        }
    }

    /// The result that was saved as `record`: what is saved comes back.
    pub fn restore(record: ResultRecord<Id>) -> (result: Self)
        ensures
            result.maps_wf(),
            forall|saved: GEPAResult<Id>|
                saved.maps_wf() && #[trigger] record.describes(saved) ==> same_result(
                    saved,
                    result,
                ),
            result.candidates == record.candidates,
            result.parents == record.parents,
            result.val_aggregate_scores == record.val_aggregate_scores,
            result.val_subscores@.len() == record.val_subscores@.len(),
            forall|i: int|
                0 <= i < result.val_subscores@.len() ==> (#[trigger] result.val_subscores@[i])@
                    == mapped(record.val_subscores@[i]@, record.val_subscores@[i]@.len() as int),
            sets_view(result.per_val_instance_best_candidates) == mapped_sets(
                record.per_val_instance_best_candidates@,
            ),
            result.discovery_eval_counts == record.discovery_eval_counts,
            result.val_aggregate_subscores is Some == record.val_aggregate_subscores is Some,
            match (record.per_objective_best_candidates, result.per_objective_best_candidates) {
                (Some(pairs), Some(sets)) => sets_view(sets) == mapped_sets(pairs@),
                (None, None) => true,
                _ => false,
            },
            match (record.objective_pareto_front, result.objective_pareto_front) {
                (Some(pairs), Some(front)) => front@ == mapped(pairs@, pairs@.len() as int),
                (None, None) => true,
                _ => false,
            },
            match (record.best_outputs_valset, result.best_outputs_valset) {
                (Some(pairs), Some(best)) => best@ == mapped(pairs@, pairs@.len() as int),
                (None, None) => true,
                _ => false,
            },
            result.total_metric_calls == record.total_metric_calls,
            result.num_full_val_evals == record.num_full_val_evals,
            result.run_dir == record.run_dir,
            result.seed == record.seed,
            result.str_candidate_key == record.str_candidate_key,
            result.validation_schema_version == record.validation_schema_version,
    {
        let ghost rec = record;
        let result = GEPAResult {
            candidates: record.candidates,
            parents: record.parents,
            val_aggregate_scores: record.val_aggregate_scores,
            val_subscores: read_maps(record.val_subscores),
            per_val_instance_best_candidates: read_sets(record.per_val_instance_best_candidates),
            discovery_eval_counts: record.discovery_eval_counts,
            val_aggregate_subscores: match record.val_aggregate_subscores {
                Some(lists) => Some(read_maps(lists)),
                None => None,
            },
            per_objective_best_candidates: match record.per_objective_best_candidates {
                Some(pairs) => Some(read_sets(pairs)),
                None => None,
            },
            objective_pareto_front: match record.objective_pareto_front {
                Some(pairs) => Some(from_pairs(pairs)),
                None => None,
            },
            best_outputs_valset: match record.best_outputs_valset {
                Some(pairs) => Some(from_pairs(pairs)),
                None => None,
            },
            total_metric_calls: record.total_metric_calls,
            num_full_val_evals: record.num_full_val_evals,
            run_dir: record.run_dir,
            seed: record.seed,
            str_candidate_key: record.str_candidate_key,
            validation_schema_version: record.validation_schema_version,
        };
        proof {
            assert forall|saved: GEPAResult<Id>|
                saved.maps_wf() && #[trigger] rec.describes(saved) implies same_result(
                saved,
                result,
            ) by {
                lemma_maps_back(
                    rec.val_subscores@,
                    saved.val_subscores@,
                    result.val_subscores@,
                );
                lemma_sets_back(
                    rec.per_val_instance_best_candidates@,
                    saved.per_val_instance_best_candidates,
                    result.per_val_instance_best_candidates,
                );
                if rec.val_aggregate_subscores is Some {
                    lemma_maps_back(
                        rec.val_aggregate_subscores->0@,
                        saved.val_aggregate_subscores->0@,
                        result.val_aggregate_subscores->0@,
                    );
                }
                if rec.per_objective_best_candidates is Some {
                    lemma_sets_back(
                        rec.per_objective_best_candidates->0@,
                        saved.per_objective_best_candidates->0,
                        result.per_objective_best_candidates->0,
                    );
                }
                if rec.objective_pareto_front is Some {
                    saved.objective_pareto_front->0.lemma_same_entries(
                        &result.objective_pareto_front->0,
                    );
                }
                if rec.best_outputs_valset is Some {
                    saved.best_outputs_valset->0.lemma_same_entries(
                        &result.best_outputs_valset->0,
                    );
                }
            }
        }
        result
    }
}

} // verus!
