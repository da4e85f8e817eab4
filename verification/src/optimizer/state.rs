//! The state of an optimization run.
//!
//! It keeps every candidate that was accepted, the scores of each, the Pareto
//! fronts over them, the evaluation budget and, if asked for, a cache of
//! evaluation results.
use std::collections::HashSet;

use serde_json::Value;
use vstd::prelude::*;

use crate::error::{GEPAError, Result};
use crate::keyed::{copy_map, KeyMap, MapKey};
use crate::optimizer::adapter::{
    candidate_entries, candidate_pairs, Candidate, ObjectiveScores,
};
use crate::optimizer::cache::EvaluationCache;
use crate::optimizer::data_loader::DataId;
use crate::optimizer::evaluation::{mean_objectives, means_of, ValsetEvaluation};
use crate::optimizer::frontier::{
    add_cartesian_fronts, add_instance_fronts, add_objective_fronts, cartesian_part, instance_part,
    objective_part, FrontierKey, FrontierKeyView, FrontierType,
};
use crate::optimizer::fronts::{
    all_rows_wf, best_on, flat_scores, flatten, joined, raise_front,
    raised, seed_sets, sets_view,
};
use crate::optimizer::schema::{check_version, json_number_field, unsupported_text, version_of};
use crate::score::{averages_to, lowest, Score, ScoreArithmetic};
use crate::text::{decimal, decimal_text, text_views};
use crate::utils::programs::{members, ProgramIdx};

verus! {

broadcast use vstd::std_specs::hash::group_hash_axioms;

/// The value of the iteration counter before the first iteration.
pub const BEFORE_FIRST_ITERATION: usize = usize::MAX;

/// What kind of step an iteration tries.
#[derive(Debug, Clone, Copy, PartialEq, Eq, Structural)]
pub enum StepKind {
    /// A merge of two candidates.
    Merge,
    /// A reflective mutation of one candidate.
    ReflectiveMutation,
}

/// What one iteration came to.
#[derive(Debug, Clone, Copy, PartialEq, Eq, Structural)]
pub struct TraceEntry {
    /// The iteration.
    pub iteration: usize,
    /// Whether the proposal was accepted.
    pub accepted: bool,
    /// The index of the new candidate, if there is one.
    pub new_program_idx: Option<ProgramIdx>,
    /// The kind of step.
    pub tag: StepKind,
    /// The evaluations used so far.
    pub total_num_evals: usize,
}

/// The state of an optimization run.
#[derive(Debug, Clone)]
pub struct GEPAState<Id: DataId> {
    /// The version of the schema that the state is saved in.
    pub validation_schema_version: u32,
    /// All candidates, in the order of their discovery.
    pub program_candidates: Vec<Candidate>,
    /// The parents of each candidate; `[None]` for the seed.
    pub parent_program_for_candidate: Vec<Vec<Option<ProgramIdx>>>,
    /// The scores of each candidate by validation example.
    pub prog_candidate_val_subscores: Vec<KeyMap<Id, Score>>,
    /// The mean score of each candidate.
    pub prog_candidate_mean_scores: Vec<Score>,
    /// The mean of each objective, for each candidate.
    pub prog_candidate_objective_scores: Vec<ObjectiveScores>,
    /// The evaluations used when each candidate was found.
    pub num_metric_calls_by_discovery: Vec<usize>,
    /// The best score on each validation example.
    pub pareto_front_valset: KeyMap<Id, Score>,
    /// The candidates that reach the best score on each validation example.
    pub program_at_pareto_front_valset: KeyMap<Id, HashSet<ProgramIdx>>,
    /// The best mean of each objective.
    pub objective_pareto_front: ObjectiveScores,
    /// The candidates that reach the best mean of each objective.
    pub program_at_pareto_front_objectives: KeyMap<String, HashSet<ProgramIdx>>,
    /// The best score on each example and objective.
    pub pareto_front_cartesian: KeyMap<(Id, String), Score>,
    /// The candidates that reach the best score on each example and objective.
    pub program_at_pareto_front_cartesian: KeyMap<(Id, String), HashSet<ProgramIdx>>,
    /// The names of the seed's components.
    pub list_of_named_predictors: Vec<String>,
    /// For each candidate, the component that is to be updated next.
    pub named_predictor_id_to_update_next: Vec<usize>,
    /// Which fronts candidates are selected from.
    pub frontier_type: FrontierType,
    /// The iteration; [`BEFORE_FIRST_ITERATION`] before the first.
    pub i: usize,
    /// The number of evaluations on the full validation set.
    pub num_full_ds_evals: usize,
    /// The number of examples that were evaluated.
    pub total_num_evals: usize,
    /// The evaluation cache, if there is one.
    pub evaluation_cache: Option<EvaluationCache>,
    /// What every iteration came to.
    pub full_program_trace: Vec<TraceEntry>,
    /// The best candidate and its output on each validation example, if they
    /// are tracked.
    pub best_outputs_valset: Option<KeyMap<Id, (ProgramIdx, Value)>>,
}

/// `serde_json::Value::from` of an optional number: null where there is none.
pub uninterp spec fn json_number_value(n: Option<u64>) -> Value;

/// The JSON null.
pub open spec fn null_value() -> Value {
    json_number_value(None)
}

/// `serde_json::Value::from` of an optional number.
#[verifier::external_body]
pub(crate) fn json_number(n: Option<u64>) -> (v: Value)
    ensures
        v == json_number_value(n),
{
    Value::from(n)
}

/// The names of a candidate's components.
pub open spec fn component_names(entries: Seq<(Seq<char>, Seq<char>)>) -> Seq<Seq<char>> {
    Seq::new(entries.len(), |i: int| entries[i].0)
}

/// The best outputs once candidate `p` was seen: its output replaces the one
/// that is there where it scores above the best score so far.
pub open spec fn best_outputs_after<K>(
    best: Map<K, (usize, Value)>,
    front: Map<K, Score>,
    scores: Map<K, Score>,
    outputs: Map<K, Value>,
    p: usize,
) -> Map<K, (usize, Value)> {
    Map::new(
        |k: K| best.dom().contains(k) || scores.dom().contains(k),
        |k: K|
            if scores.dom().contains(k) && (!best.dom().contains(k) || scores[k].above(
                best_on(front, k),
            )) {
                (
                    p,
                    if outputs.dom().contains(k) {
                        outputs[k]
                    } else {
                        null_value()
                    },
                )
            } else {
                best[k]
            },
    )
}

/// The greatest counter among those of the first `n` parents, or 0.
pub open spec fn greatest_counter(counters: Seq<usize>, parents: Seq<usize>, n: int) -> usize
    decreases n,
{
    if n <= 0 {
        0
    } else {
        let before = greatest_counter(counters, parents, n - 1);
        let c = counters[parents[n - 1] as int];
        if c > before {
            c
        } else {
            before
        }
    }
}

/// The text of the error for a list of the wrong length.
pub open spec fn length_fault(name: Seq<char>, len: nat, n: nat) -> Seq<char> {
    "GEPAState invariant: "@ + name + " has len "@ + decimal_text(len)
        + " but program_candidates has len "@ + decimal_text(n)
}

/// The text of the error for objective scores that a new state lacks.
pub open spec fn seed_objectives_fault(t: FrontierType) -> Seq<char> {
    "frontier_type="@ + t.name_spec()
        + " requires objective_scores to be provided by the evaluator, but none were found. Use an evaluator that returns objective_scores or use FrontierType::Instance."@
}

/// The text of the error for objective scores that a new candidate lacks.
pub open spec fn objectives_fault(t: FrontierType) -> Seq<char> {
    "frontier_type="@ + t.name_spec() + " requires objective_scores in valset_evaluation"@
}

impl<Id: DataId> GEPAState<Id> {
    /// Every map of the state is valid.
    pub open spec fn maps_wf(&self) -> bool {
        &&& forall|i: int|
            0 <= i < self.prog_candidate_val_subscores@.len() ==> (
            #[trigger] self.prog_candidate_val_subscores@[i]).wf()
        &&& forall|i: int|
            0 <= i < self.prog_candidate_objective_scores@.len() ==> (
            #[trigger] self.prog_candidate_objective_scores@[i]).wf()
        &&& self.pareto_front_valset.wf()
        &&& self.program_at_pareto_front_valset.wf()
        &&& self.objective_pareto_front.wf()
        &&& self.program_at_pareto_front_objectives.wf()
        &&& self.pareto_front_cartesian.wf()
        &&& self.program_at_pareto_front_cartesian.wf()
        &&& (self.evaluation_cache matches Some(cache) ==> cache.wf())
        &&& (self.best_outputs_valset matches Some(best) ==> best.wf())
    }

    /// The lists have one entry for each candidate.
    pub open spec fn aligned(&self) -> bool {
        let n = self.program_candidates@.len();
        &&& self.parent_program_for_candidate@.len() == n
        &&& self.named_predictor_id_to_update_next@.len() == n
        &&& self.prog_candidate_val_subscores@.len() == n
        &&& self.prog_candidate_mean_scores@.len() == n
        &&& self.prog_candidate_objective_scores@.len() == n
        &&& self.num_metric_calls_by_discovery@.len() == n
    }

    /// The front on the validation examples has a score and a set for the same
    /// examples, and the sets hold indices of candidates.
    pub open spec fn front_consistent(&self) -> bool {
        &&& self.pareto_front_valset@.dom() == sets_view(self.program_at_pareto_front_valset).dom()
        &&& programs_below(
            sets_view(self.program_at_pareto_front_valset),
            self.program_candidates@.len(),
        )
    }

    /// The lists and the front agree with each other.
    pub open spec fn consistent(&self) -> bool {
        self.aligned() && self.front_consistent()
    }

    /// Every program on a front is one of the candidates.
    pub open spec fn fronts_in_range(&self) -> bool {
        let n = self.program_candidates@.len();
        &&& programs_below(sets_view(self.program_at_pareto_front_valset), n)
        &&& programs_below(sets_view(self.program_at_pareto_front_objectives), n)
        &&& programs_below(sets_view(self.program_at_pareto_front_cartesian), n)
    }

    /// Every parent came before its child.
    pub open spec fn parents_precede(&self) -> bool {
        forall|i: int, j: int|
            0 <= i < self.parent_program_for_candidate@.len() && 0 <= j
                < self.parent_program_for_candidate@[i]@.len() ==> (
            #[trigger] self.parent_program_for_candidate@[i]@[j] matches Some(p) ==> p < i)
    }

    /// The components of the candidates.
    pub open spec fn candidates_view(&self) -> Seq<Seq<(Seq<char>, Seq<char>)>> {
        Seq::new(
            self.program_candidates@.len(),
            |i: int| candidate_entries(self.program_candidates@[i]),
        )
    }

    /// The scores of each candidate.
    pub open spec fn subscores_view(&self) -> Seq<Map<Id::V, Score>> {
        Seq::new(
            self.prog_candidate_val_subscores@.len(),
            |i: int| self.prog_candidate_val_subscores@[i]@,
        )
    }

    /// The objective means of each candidate.
    pub open spec fn objectives_seq(&self) -> Seq<Map<Seq<char>, Score>> {
        Seq::new(
            self.prog_candidate_objective_scores@.len(),
            |i: int| self.prog_candidate_objective_scores@[i]@,
        )
    }

    /// The mean score of candidate `i`: negative infinity where it was scored
    /// on no example.
    pub open spec fn mean_of(&self, i: int) -> Score {
        if self.prog_candidate_val_subscores@[i].value_seq().len() == 0 {
            lowest()
        } else {
            self.prog_candidate_mean_scores@[i]
        }
    }

    /// Whether the mean score of every candidate that was scored is what `arith`
    /// gave for the candidate's scores.
    pub open spec fn means_by<A: ScoreArithmetic>(&self, arith: A) -> bool {
        &&& self.prog_candidate_mean_scores@.len() == self.prog_candidate_val_subscores@.len()
        &&& forall|i: int|
            0 <= i < self.prog_candidate_val_subscores@.len()
                && self.prog_candidate_val_subscores@[i].value_seq().len() > 0 ==> averages_to(
                arith,
                self.prog_candidate_val_subscores@[i].value_seq(),
                #[trigger] self.prog_candidate_mean_scores@[i],
            )
    }

    /// The mean scores of all candidates.
    pub open spec fn mean_scores(&self) -> Seq<Score> {
        Seq::new(self.program_candidates@.len(), |i: int| self.mean_of(i))
    }

    /// The version of the schema that states are saved in.
    pub const SCHEMA_VERSION: u32 = 4;

    /// The initial state, with `evaluation` the seed's results.
    pub open spec fn seeded_by(
        &self,
        entries: Seq<(Seq<char>, Seq<char>)>,
        evaluation: ValsetEvaluation<Id>,
        frontier_type: FrontierType,
        track_best_outputs: bool,
    ) -> bool {
        let scores = evaluation.scores_by_val_id@;
        let objectives = evaluation.mean_objectives@;
        &&& self.maps_wf()
        &&& self.aligned()
        &&& self.validation_schema_version == Self::SCHEMA_VERSION
        &&& self.candidates_view() == seq![entries]
        &&& self.parent_program_for_candidate@.len() == 1
        &&& self.parent_program_for_candidate@[0]@ == seq![None::<usize>]
        &&& self.subscores_view() == seq![scores]
        &&& self.prog_candidate_val_subscores@ == seq![evaluation.scores_by_val_id]
        &&& self.prog_candidate_mean_scores@ == seq![evaluation.mean_score]
        &&& self.mean_of(0) == evaluation.mean_score
        &&& self.objectives_seq() == seq![objectives]
        &&& self.num_metric_calls_by_discovery@ == seq![0usize]
        &&& self.pareto_front_valset@ == scores
        &&& seed_holds(sets_view(self.program_at_pareto_front_valset), scores)
        &&& self.objective_pareto_front@ == objectives
        &&& seed_holds(sets_view(self.program_at_pareto_front_objectives), objectives)
        &&& self.pareto_front_cartesian@ == cartesian_seed(evaluation, frontier_type)
        &&& seed_holds(
            sets_view(self.program_at_pareto_front_cartesian),
            cartesian_seed(evaluation, frontier_type),
        )
        &&& text_views(self.list_of_named_predictors@) == component_names(entries)
        &&& self.named_predictor_id_to_update_next@ == seq![0usize]
        &&& self.frontier_type == frontier_type
        &&& self.i == BEFORE_FIRST_ITERATION
        &&& self.num_full_ds_evals == 0
        &&& self.total_num_evals == 0
        &&& self.full_program_trace@.len() == 0
        &&& match self.best_outputs_valset {
            Some(best) => {
                &&& track_best_outputs
                &&& forall|k: Id::V| #[trigger]
                    best@.dom().contains(k) <==> evaluation.outputs_by_val_id@.dom().contains(k)
                &&& forall|k: Id::V| #[trigger]
                    best@.dom().contains(k) ==> best@[k] == (
                        0usize,
                        evaluation.outputs_by_val_id@[k],
                    )
            },
            None => !track_best_outputs,
        }
    }
}

/// Every program in the sets has an index below `n`.
pub open spec fn programs_below<K>(sets: Map<K, Set<usize>>, n: nat) -> bool {
    forall|k: K, p: usize|
        sets.dom().contains(k) && #[trigger] sets[k].contains(p) ==> p < n
}

/// The sets have exactly program 0 on every key of `scores`.
pub open spec fn seed_holds<K>(sets: Map<K, Set<usize>>, scores: Map<K, Score>) -> bool {
    &&& sets.dom() == scores.dom()
    &&& forall|k: K| #[trigger]
        scores.dom().contains(k) ==> sets[k] == Set::<usize>::empty().insert(0)
}

/// The scores on pairs of example and objective that a new state starts with.
pub open spec fn cartesian_seed<Id: DataId>(
    evaluation: ValsetEvaluation<Id>,
    frontier_type: FrontierType,
) -> Map<(Id::V, Seq<char>), Score> {
    match evaluation.objective_scores_by_val_id {
        Some(rows) => if frontier_type is Cartesian {
            flat_scores(rows)
        } else {
            Map::empty()
        },
        None => Map::empty(),
    }
}

impl<Id: DataId> GEPAState<Id> {
    /// The state with a seed candidate and its results.
    ///
    /// # Errors
    /// A configuration error where `frontier_type` needs objective scores and
    /// the seed's results have none.
    pub fn new(
        seed_candidate: Candidate,
        base_evaluation: ValsetEvaluation<Id>,
        frontier_type: FrontierType,
        evaluation_cache: Option<EvaluationCache>,
    ) -> (r: Result<Self>)
        requires
            base_evaluation.wf(),
            evaluation_cache matches Some(cache) ==> cache.wf(),
        ensures
            match r {
                Ok(state) => {
                    &&& !(frontier_type.needs_objectives()
                        && base_evaluation.objective_scores_by_val_id is None)
                    &&& state.seeded_by(
                        candidate_entries(seed_candidate),
                        base_evaluation,
                        frontier_type,
                        false,
                    )
                    &&& state.evaluation_cache == evaluation_cache
                },
                Err(e) => {
                    &&& frontier_type.needs_objectives()
                    &&& base_evaluation.objective_scores_by_val_id is None
                    &&& e matches GEPAError::Config(text)
                    &&& text@ == seed_objectives_fault(frontier_type)
                },
            },
    {
        Self::new_with_options(
            seed_candidate,
            base_evaluation,
            frontier_type,
            evaluation_cache,
            false,
        )
    }

    /// The state with a seed candidate and its results; with
    /// `track_best_outputs` it keeps the best output on every example.
    ///
    /// # Errors
    /// A configuration error where `frontier_type` needs objective scores and
    /// the seed's results have none.
    pub fn new_with_options(
        seed_candidate: Candidate,
        base_evaluation: ValsetEvaluation<Id>,
        frontier_type: FrontierType,
        evaluation_cache: Option<EvaluationCache>,
        track_best_outputs: bool,
    ) -> (r: Result<Self>)
        requires
            base_evaluation.wf(),
            evaluation_cache matches Some(cache) ==> cache.wf(),
        ensures
            match r {
                Ok(state) => {
                    &&& !(frontier_type.needs_objectives()
                        && base_evaluation.objective_scores_by_val_id is None)
                    &&& state.seeded_by(
                        candidate_entries(seed_candidate),
                        base_evaluation,
                        frontier_type,
                        track_best_outputs,
                    )
                    &&& state.evaluation_cache == evaluation_cache
                },
                Err(e) => {
                    &&& frontier_type.needs_objectives()
                    &&& base_evaluation.objective_scores_by_val_id is None
                    &&& e matches GEPAError::Config(text)
                    &&& text@ == seed_objectives_fault(frontier_type)
                },
            },
    {
        if frontier_type != FrontierType::Instance
            && base_evaluation.objective_scores_by_val_id.is_none() {
            let mut text = "frontier_type=".to_owned();
            text.append(frontier_type.name());
            text.append(
                " requires objective_scores to be provided by the evaluator, but none were found. Use an evaluator that returns objective_scores or use FrontierType::Instance.",
            );
            return Err(GEPAError::Config(text));
        }
        let pareto_front_valset = copy_map(&base_evaluation.scores_by_val_id);
        let program_at_pareto_front_valset = seed_sets(&base_evaluation.scores_by_val_id);
        let objective_pareto_front = copy_map(&base_evaluation.mean_objectives);
        let program_at_pareto_front_objectives = seed_sets(&base_evaluation.mean_objectives);
        let pareto_front_cartesian = match &base_evaluation.objective_scores_by_val_id {
            Some(rows) => if frontier_type == FrontierType::Cartesian {
                flatten(rows)
            } else {
                KeyMap::new()
            },
            None => KeyMap::new(),
        };
        let program_at_pareto_front_cartesian = seed_sets(&pareto_front_cartesian);
        let list_of_named_predictors = names_of(&seed_candidate);
        let best_outputs_valset = if track_best_outputs {
            Some(seed_outputs(&base_evaluation.outputs_by_val_id))
        } else {
            None
        };
        let state = GEPAState {
            validation_schema_version: Self::SCHEMA_VERSION,
            program_candidates: vec![seed_candidate],
            parent_program_for_candidate: vec![vec![None]],
            prog_candidate_val_subscores: vec![base_evaluation.scores_by_val_id],
            prog_candidate_mean_scores: vec![base_evaluation.mean_score],
            prog_candidate_objective_scores: vec![base_evaluation.mean_objectives],
            num_metric_calls_by_discovery: vec![0],
            pareto_front_valset,
            program_at_pareto_front_valset,
            objective_pareto_front,
            program_at_pareto_front_objectives,
            pareto_front_cartesian,
            program_at_pareto_front_cartesian,
            list_of_named_predictors,
            named_predictor_id_to_update_next: vec![0],
            frontier_type,
            i: BEFORE_FIRST_ITERATION,
            num_full_ds_evals: 0,
            total_num_evals: 0,
            evaluation_cache,
            full_program_trace: Vec::new(),
            best_outputs_valset,
        };
        proof {
            assert(state.candidates_view() =~= seq![candidate_entries(seed_candidate)]);
            assert(state.subscores_view() =~= seq![base_evaluation.scores_by_val_id@]);
            assert(state.prog_candidate_val_subscores@ =~= seq![base_evaluation.scores_by_val_id]);
            assert(state.objectives_seq() =~= seq![base_evaluation.mean_objectives@]);
            assert(state.parent_program_for_candidate@[0]@ =~= seq![None::<usize>]);
            assert(state.prog_candidate_mean_scores@ =~= seq![base_evaluation.mean_score]);
            assert(state.num_metric_calls_by_discovery@ =~= seq![0usize]);
            assert(state.named_predictor_id_to_update_next@ =~= seq![0usize]);
        }
        Ok(state)
    }
}

/// The names of the candidate's components, in order.
pub fn names_of(candidate: &Candidate) -> (names: Vec<String>)
    ensures
        text_views(names@) == component_names(candidate_entries(*candidate)),
{
    let pairs = candidate_pairs(candidate);
    let mut names: Vec<String> = Vec::new();
    let mut i: usize = 0;
    while i < pairs.len()
        invariant
            i <= pairs@.len(),
            names@.len() == i,
            forall|j: int| 0 <= j < i ==> (#[trigger] names@[j])@ == pairs@[j].0@,
        decreases pairs@.len() - i,
    {
        names.push(pairs[i].0.clone());
        i += 1;
    }
    assert(crate::optimizer::adapter::pair_views(pairs@) == candidate_entries(*candidate));
    assert(text_views(names@) =~= component_names(candidate_entries(*candidate)));
    names
}

/// Program 0 with its output, for every example.
fn seed_outputs<Id: DataId>(outputs: &KeyMap<Id, Value>) -> (best: KeyMap<Id, (ProgramIdx, Value)>)
    requires
        outputs.wf(),
    ensures
        best.wf(),
        forall|k: Id::V| #[trigger] best@.dom().contains(k) <==> outputs@.dom().contains(k),
        forall|k: Id::V| #[trigger]
            best@.dom().contains(k) ==> best@[k] == (0usize, outputs@[k]),
{
    let n: usize = outputs.len();
    let mut best: KeyMap<Id, (usize, Value)> = KeyMap::new();
    let mut i: usize = 0;
    assert(outputs.key_seq().take(0) =~= best.key_seq());
    while i < n
        invariant
            outputs.wf(),
            best.wf(),
            n == outputs.key_seq().len(),
            i <= n,
            best.key_seq() == outputs.key_seq().take(i as int),
            forall|j: int|
                0 <= j < i ==> #[trigger] best.value_seq()[j] == (
                    0usize,
                    outputs.value_seq()[j],
                ),
        decreases n - i,
    {
        proof {
            outputs.lemma_fresh(&best, i as int);
        }
        best.insert(outputs.key_at(i).duplicate(), (0, outputs.value_at(i).clone()));
        assert(outputs.key_seq().take(i + 1) =~= best.key_seq());
        i += 1;
    }
    assert(best.key_seq() =~= outputs.key_seq());
    assert forall|k: Id::V| #[trigger] best@.dom().contains(k) implies best@[k] == (
        0usize,
        outputs@[k],
    ) by {
        let p = best.lemma_position(k);
        outputs.lemma_entry(p);
        assert(best.value_seq()[p] == (0usize, outputs.value_seq()[p]));
    }
    best
}

impl<Id: DataId> GEPAState<Id> {
    /// The mean of every objective over the examples that have it. Without
    /// objective scores there is none.
    pub fn aggregate_objective_scores<A: ScoreArithmetic>(
        objective_scores_by_val_id: Option<&KeyMap<Id, ObjectiveScores>>,
        arith: &A,
    ) -> (means: ObjectiveScores)
        requires
            objective_scores_by_val_id matches Some(m) ==> all_rows_wf(*m),
        ensures
            means.wf(),
            match objective_scores_by_val_id {
                Some(m) => means_of(*arith, m.value_seq(), means@),
                None => means@ == Map::<Seq<char>, Score>::empty(),
            },
    {
        mean_objectives(objective_scores_by_val_id, arith)
    }

    /// Count `count` more evaluations.
    pub fn increment_evals(&mut self, count: usize)
        requires
            old(self).total_num_evals + count <= usize::MAX,
        ensures
            *final(self) == (GEPAState {
                total_num_evals: (old(self).total_num_evals + count) as usize,
                ..*old(self)
            }),
    {
        self.total_num_evals += count;
    }

    /// The mean score of a candidate and the number of examples that it was
    /// scored on; negative infinity and 0 where there is none.
    pub fn get_program_average_val_subset(&self, program_idx: ProgramIdx) -> (r: (Score, usize))
        requires
            self.maps_wf(),
            program_idx < self.prog_candidate_val_subscores@.len(),
            program_idx < self.prog_candidate_mean_scores@.len(),
        ensures
            r.0 == self.mean_of(program_idx as int),
            r.1 == self.prog_candidate_val_subscores@[program_idx as int]@.dom().len(),
    {
        let scores = &self.prog_candidate_val_subscores[program_idx];
        assert(self.prog_candidate_val_subscores@[program_idx as int].wf());
        let n: usize = scores.len();
        if n == 0 {
            (Score::neg_infinity(), 0)
        } else {
            (self.prog_candidate_mean_scores[program_idx], n)
        }
    }

    /// The mean score of every candidate.
    pub fn program_full_scores_val_set(&self) -> (list: Vec<Score>)
        requires
            self.maps_wf(),
            self.program_candidates@.len() <= self.prog_candidate_val_subscores@.len(),
            self.program_candidates@.len() <= self.prog_candidate_mean_scores@.len(),
        ensures
            list@ == self.mean_scores(),
    {
        let n: usize = self.program_candidates.len();
        let mut list: Vec<Score> = Vec::new();
        let mut i: usize = 0;
        while i < n
            invariant
                self.maps_wf(),
                n == self.program_candidates@.len(),
                n <= self.prog_candidate_val_subscores@.len(),
                n <= self.prog_candidate_mean_scores@.len(),
                i <= n,
                list@.len() == i,
                forall|j: int| 0 <= j < i ==> list@[j] == self.mean_of(j),
            decreases n - i,
        {
            list.push(self.get_program_average_val_subset(i).0);
            i += 1;
        }
        assert(list@ =~= self.mean_scores());
        list
    }

    /// The state after a candidate with the results `evaluation` was added.
    pub open spec fn extended(
        &self,
        old: GEPAState<Id>,
        parents: Seq<usize>,
        entries: Seq<(Seq<char>, Seq<char>)>,
        evaluation: ValsetEvaluation<Id>,
        calls: usize,
    ) -> bool {
        let p = old.program_candidates@.len() as usize;
        let scores = evaluation.scores_by_val_id@;
        let objectives = evaluation.mean_objectives@;
        &&& self.maps_wf()
        &&& self.validation_schema_version == old.validation_schema_version
        &&& self.candidates_view() == old.candidates_view().push(entries)
        &&& self.parent_program_for_candidate@.len() == old.parent_program_for_candidate@.len() + 1
        &&& self.parent_program_for_candidate@.drop_last() == old.parent_program_for_candidate@
        &&& self.parent_program_for_candidate@.last()@ == Seq::new(
            parents.len(),
            |i: int| Some(parents[i]),
        )
        &&& self.subscores_view() == old.subscores_view().push(scores)
        &&& self.prog_candidate_val_subscores@.drop_last() == old.prog_candidate_val_subscores@
        &&& self.prog_candidate_val_subscores@.last().value_seq()
            == evaluation.scores_by_val_id.value_seq()
        &&& self.prog_candidate_mean_scores@ == old.prog_candidate_mean_scores@.push(
            evaluation.mean_score,
        )
        &&& self.objectives_seq() == old.objectives_seq().push(objectives)
        &&& self.num_metric_calls_by_discovery@ == old.num_metric_calls_by_discovery@.push(calls)
        &&& self.pareto_front_valset@ == raised(old.pareto_front_valset@, scores)
        &&& sets_view(self.program_at_pareto_front_valset) == joined(
            old.pareto_front_valset@,
            sets_view(old.program_at_pareto_front_valset),
            scores,
            p,
        )
        &&& self.objective_pareto_front@ == raised(old.objective_pareto_front@, objectives)
        &&& sets_view(self.program_at_pareto_front_objectives) == joined(
            old.objective_pareto_front@,
            sets_view(old.program_at_pareto_front_objectives),
            objectives,
            p,
        )
        &&& self.pareto_front_cartesian@ == raised(
            old.pareto_front_cartesian@,
            cartesian_seed(evaluation, old.frontier_type),
        )
        &&& sets_view(self.program_at_pareto_front_cartesian) == joined(
            old.pareto_front_cartesian@,
            sets_view(old.program_at_pareto_front_cartesian),
            cartesian_seed(evaluation, old.frontier_type),
            p,
        )
        &&& self.list_of_named_predictors == old.list_of_named_predictors
        &&& self.named_predictor_id_to_update_next@
            == old.named_predictor_id_to_update_next@.push(
            greatest_counter(
                old.named_predictor_id_to_update_next@,
                parents,
                parents.len() as int,
            ),
        )
        &&& self.frontier_type == old.frontier_type
        &&& self.i == old.i
        &&& self.num_full_ds_evals == old.num_full_ds_evals
        &&& self.total_num_evals == old.total_num_evals
        &&& self.evaluation_cache == old.evaluation_cache
        &&& self.full_program_trace == old.full_program_trace
        &&& match (old.best_outputs_valset, self.best_outputs_valset) {
            (Some(before), Some(after)) => after@ == best_outputs_after(
                before@,
                old.pareto_front_valset@,
                scores,
                evaluation.outputs_by_val_id@,
                p,
            ),
            (None, None) => true,
            _ => false,
        }
    }

    /// Add an accepted candidate and raise all Pareto fronts to its scores.
    /// The candidate's component counter is the greatest of its parents'.
    ///
    /// Returns the index of the candidate.
    ///
    /// # Errors
    /// A configuration error where the frontier type needs objective scores
    /// and the results have none; the candidate is added all the same.
    pub fn update_state_with_new_program(
        &mut self,
        parent_program_idx: Vec<ProgramIdx>,
        new_program: Candidate,
        valset_evaluation: ValsetEvaluation<Id>,
        num_metric_calls_by_discovery_of_new_program: usize,
    ) -> (r: Result<ProgramIdx>)
        requires
            old(self).maps_wf(),
            valset_evaluation.wf(),
            forall|i: int|
                0 <= i < parent_program_idx@.len() ==> (#[trigger] parent_program_idx@[i])
                    < old(self).named_predictor_id_to_update_next@.len(),
        ensures
            final(self).extended(
                *old(self),
                parent_program_idx@,
                candidate_entries(new_program),
                valset_evaluation,
                num_metric_calls_by_discovery_of_new_program,
            ),
            match r {
                Ok(idx) => {
                    &&& idx == old(self).program_candidates@.len()
                    &&& !(old(self).frontier_type.needs_objectives()
                        && valset_evaluation.objective_scores_by_val_id is None)
                },
                Err(e) => {
                    &&& old(self).frontier_type.needs_objectives()
                    &&& valset_evaluation.objective_scores_by_val_id is None
                    &&& e matches GEPAError::Config(text)
                    &&& text@ == objectives_fault(old(self).frontier_type)
                },
            },
    {
        let new_program_idx: usize = self.program_candidates.len();
        let counter: usize = max_counter(
            &self.named_predictor_id_to_update_next,
            &parent_program_idx,
        );
        let ghost entries = candidate_entries(new_program);
        self.program_candidates.push(new_program);
        self.num_metric_calls_by_discovery.push(num_metric_calls_by_discovery_of_new_program);
        self.named_predictor_id_to_update_next.push(counter);
        self.parent_program_for_candidate.push(as_parents(&parent_program_idx));
        self.prog_candidate_val_subscores.push(copy_map(&valset_evaluation.scores_by_val_id));
        self.prog_candidate_mean_scores.push(valset_evaluation.mean_score);
        self.prog_candidate_objective_scores.push(copy_map(&valset_evaluation.mean_objectives));
        if let Some(best) = &mut self.best_outputs_valset {
            keep_best_outputs(
                best,
                &self.pareto_front_valset,
                &valset_evaluation.scores_by_val_id,
                &valset_evaluation.outputs_by_val_id,
                new_program_idx,
            );
        }
        self.update_pareto_front_for_val_ids(&valset_evaluation.scores_by_val_id, new_program_idx);
        self.update_objective_pareto_front(&valset_evaluation.mean_objectives, new_program_idx);
        let flat = match &valset_evaluation.objective_scores_by_val_id {
            Some(rows) => if self.frontier_type == FrontierType::Cartesian {
                flatten(rows)
            } else {
                KeyMap::new()
            },
            None => KeyMap::new(),
        };
        self.update_pareto_front_for_cartesian(&flat, new_program_idx);
        proof {
            let old_self = *old(self);
            assert(self.candidates_view() =~= old_self.candidates_view().push(entries));
            assert(self.subscores_view() =~= old_self.subscores_view().push(
                valset_evaluation.scores_by_val_id@,
            ));
            assert(self.objectives_seq() =~= old_self.objectives_seq().push(
                valset_evaluation.mean_objectives@,
            ));
            assert(self.parent_program_for_candidate@.drop_last()
                =~= old_self.parent_program_for_candidate@);
            assert(self.prog_candidate_val_subscores@.drop_last()
                =~= old_self.prog_candidate_val_subscores@);
        }
        if self.frontier_type != FrontierType::Instance
            && valset_evaluation.objective_scores_by_val_id.is_none() {
            let mut text = "frontier_type=".to_owned();
            text.append(self.frontier_type.name());
            text.append(" requires objective_scores in valset_evaluation");
            return Err(GEPAError::Config(text));
        }
        Ok(new_program_idx)
    }

    fn update_pareto_front_for_val_ids(&mut self, scores: &KeyMap<Id, Score>, program_idx: ProgramIdx)
        requires
            old(self).maps_wf(),
            scores.wf(),
        ensures
            final(self).maps_wf(),
            final(self).pareto_front_valset@ == raised(old(self).pareto_front_valset@, scores@),
            sets_view(final(self).program_at_pareto_front_valset) == joined(
                old(self).pareto_front_valset@,
                sets_view(old(self).program_at_pareto_front_valset),
                scores@,
                program_idx,
            ),
            *final(self) == (GEPAState {
                pareto_front_valset: final(self).pareto_front_valset,
                program_at_pareto_front_valset: final(self).program_at_pareto_front_valset,
                ..*old(self)
            }),
    {
        raise_front(
            &mut self.pareto_front_valset,
            &mut self.program_at_pareto_front_valset,
            scores,
            program_idx,
        );
    }

    fn update_objective_pareto_front(
        &mut self,
        objective_scores: &ObjectiveScores,
        program_idx: ProgramIdx,
    )
        requires
            old(self).maps_wf(),
            objective_scores.wf(),
        ensures
            final(self).maps_wf(),
            final(self).objective_pareto_front@ == raised(
                old(self).objective_pareto_front@,
                objective_scores@,
            ),
            sets_view(final(self).program_at_pareto_front_objectives) == joined(
                old(self).objective_pareto_front@,
                sets_view(old(self).program_at_pareto_front_objectives),
                objective_scores@,
                program_idx,
            ),
            *final(self) == (GEPAState {
                objective_pareto_front: final(self).objective_pareto_front,
                program_at_pareto_front_objectives: final(self).program_at_pareto_front_objectives,
                ..*old(self)
            }),
    {
        raise_front(
            &mut self.objective_pareto_front,
            &mut self.program_at_pareto_front_objectives,
            objective_scores,
            program_idx,
        );
    }

    fn update_pareto_front_for_cartesian(
        &mut self,
        scores: &KeyMap<(Id, String), Score>,
        program_idx: ProgramIdx,
    )
        requires
            old(self).maps_wf(),
            scores.wf(),
        ensures
            final(self).maps_wf(),
            final(self).pareto_front_cartesian@ == raised(
                old(self).pareto_front_cartesian@,
                scores@,
            ),
            sets_view(final(self).program_at_pareto_front_cartesian) == joined(
                old(self).pareto_front_cartesian@,
                sets_view(old(self).program_at_pareto_front_cartesian),
                scores@,
                program_idx,
            ),
            *final(self) == (GEPAState {
                pareto_front_cartesian: final(self).pareto_front_cartesian,
                program_at_pareto_front_cartesian: final(self).program_at_pareto_front_cartesian,
                ..*old(self)
            }),
    {
        raise_front(
            &mut self.pareto_front_cartesian,
            &mut self.program_at_pareto_front_cartesian,
            scores,
            program_idx,
        );
    }
}

fn max_counter(counters: &Vec<usize>, parents: &Vec<ProgramIdx>) -> (c: usize)
    requires
        forall|i: int| 0 <= i < parents@.len() ==> (#[trigger] parents@[i]) < counters@.len(),
    ensures
        c == greatest_counter(counters@, parents@, parents@.len() as int),
{
    let mut c: usize = 0;
    let mut i: usize = 0;
    while i < parents.len()
        invariant
            forall|j: int| 0 <= j < parents@.len() ==> (#[trigger] parents@[j]) < counters@.len(),
            i <= parents@.len(),
            c == greatest_counter(counters@, parents@, i as int),
        decreases parents@.len() - i,
    {
        let next: usize = counters[parents[i]];
        if next > c {
            c = next;
        }
        i += 1;
    }
    c
}

fn as_parents(parents: &Vec<ProgramIdx>) -> (list: Vec<Option<ProgramIdx>>)
    ensures
        list@ == Seq::new(parents@.len(), |i: int| Some(parents@[i])),
{
    let mut list: Vec<Option<usize>> = Vec::new();
    let mut i: usize = 0;
    while i < parents.len()
        invariant
            i <= parents@.len(),
            list@.len() == i,
            forall|j: int| 0 <= j < i ==> list@[j] == Some(parents@[j]),
        decreases parents@.len() - i,
    {
        list.push(Some(parents[i]));
        i += 1;
    }
    assert(list@ =~= Seq::new(parents@.len(), |i: int| Some(parents@[i])));
    list
}

/// Give each example that candidate `p` is first or best on the candidate's
/// output.
fn keep_best_outputs<Id: DataId>(
    best: &mut KeyMap<Id, (ProgramIdx, Value)>,
    front: &KeyMap<Id, Score>,
    scores: &KeyMap<Id, Score>,
    outputs: &KeyMap<Id, Value>,
    p: ProgramIdx,
)
    requires
        old(best).wf(),
        front.wf(),
        scores.wf(),
        outputs.wf(),
    ensures
        final(best).wf(),
        final(best)@ == best_outputs_after(old(best)@, front@, scores@, outputs@, p),
{
    let ghost best0 = best@;
    let n: usize = scores.len();
    let mut i: usize = 0;
    assert(best@ =~= best_outputs_after(best0, front@, scores.first(0), outputs@, p));
    while i < n
        invariant
            best.wf(),
            front.wf(),
            scores.wf(),
            outputs.wf(),
            n == scores.key_seq().len(),
            i <= n,
            best@ == best_outputs_after(
                best0,
                front@,
                scores.first(i as int),
                outputs@,
                p,
            ),
        decreases n - i,
    {
        let key = scores.key_at(i);
        let score = *scores.value_at(i);
        let ghost part = scores.first(i as int);
        proof {
            scores.lemma_entry(i as int);
            scores.lemma_first(i as int);
        }
        let first_or_best = if best.contains_key(key) {
            match front.get(key) {
                Some(prev) => score.exceeds(prev),
                None => score.exceeds(&Score::neg_infinity()),
            }
        } else {
            true
        };
        if first_or_best {
            let output = match outputs.get(key) {
                Some(v) => v.clone(),
                None => json_number(None),
            };
            best.insert(key.duplicate(), (p, output));
        }
        assert(best@ =~= best_outputs_after(
            best0,
            front@,
            scores.first(i + 1),
            outputs@,
            p,
        ));
        i += 1;
    }
    proof {
        scores.lemma_all();
    }
}

impl<Id: DataId> GEPAState<Id> {
    /// The fronts that the frontier type selects.
    pub open spec fn frontier(&self) -> Map<FrontierKeyView<Id::V>, Set<usize>> {
        match self.frontier_type {
            FrontierType::Instance => instance_part(sets_view(self.program_at_pareto_front_valset)),
            FrontierType::Objective => objective_part(
                sets_view(self.program_at_pareto_front_objectives),
            ),
            FrontierType::Hybrid => instance_part(
                sets_view(self.program_at_pareto_front_valset),
            ).union_prefer_right(objective_part(sets_view(self.program_at_pareto_front_objectives))),
            FrontierType::Cartesian => cartesian_part(
                sets_view(self.program_at_pareto_front_cartesian),
            ),
        }
    }

    /// The fronts that the frontier type selects, by their keys.
    pub fn get_pareto_front_mapping(&self) -> (mapping: KeyMap<
        FrontierKey<Id>,
        HashSet<ProgramIdx>,
    >)
        requires
            self.maps_wf(),
        ensures
            mapping.wf(),
            sets_view(mapping) == self.frontier(),
    {
        let mut mapping: KeyMap<FrontierKey<Id>, HashSet<ProgramIdx>> = KeyMap::new();
        let ghost none = sets_view(mapping);
        match self.frontier_type {
            FrontierType::Instance => {
                add_instance_fronts(&self.program_at_pareto_front_valset, &mut mapping);
            },
            FrontierType::Objective => {
                add_objective_fronts(&self.program_at_pareto_front_objectives, &mut mapping);
            },
            FrontierType::Hybrid => {
                add_instance_fronts(&self.program_at_pareto_front_valset, &mut mapping);
                add_objective_fronts(&self.program_at_pareto_front_objectives, &mut mapping);
            },
            FrontierType::Cartesian => {
                add_cartesian_fronts(&self.program_at_pareto_front_cartesian, &mut mapping);
            },
        }
        assert(sets_view(mapping) =~= self.frontier());
        mapping
    }

    /// Check that the lists and the front agree with each other.
    ///
    /// # Errors
    /// A configuration error that names what does not agree.
    pub fn is_consistent(&self) -> (r: Result<()>)
        requires
            self.maps_wf(),
        ensures
            r is Ok <==> self.consistent(),
            r matches Err(e) ==> e is Config,
            r matches Err(e) ==> match self.length_text() {
                Some(text) => e->Config_0@ == text,
                None => self.front_complaint(e->Config_0@),
            },
    {
        let n: usize = self.program_candidates.len();
        check_len(
            self.parent_program_for_candidate.len(),
            "parent_program_for_candidate",
            n,
        )?;
        check_len(
            self.named_predictor_id_to_update_next.len(),
            "named_predictor_id_to_update_next",
            n,
        )?;
        check_len(
            self.prog_candidate_val_subscores.len(),
            "prog_candidate_val_subscores",
            n,
        )?;
        check_len(self.prog_candidate_mean_scores.len(), "prog_candidate_mean_scores", n)?;
        check_len(
            self.prog_candidate_objective_scores.len(),
            "prog_candidate_objective_scores",
            n,
        )?;
        check_len(self.num_metric_calls_by_discovery.len(), "num_metric_calls_by_discovery", n)?;
        let sets = &self.program_at_pareto_front_valset;
        let ghost front_dom = self.pareto_front_valset@.dom();
        let ghost sets_dom = sets_view(*sets).dom();
        assert(sets_dom =~= sets@.dom());
        if self.pareto_front_valset.len() != sets.len() {
            return Err(
                GEPAError::Config(
                    "pareto_front_valset and program_at_pareto_front_valset have different sizes".to_owned(),
                ),
            );
        }
        let m: usize = sets.len();
        let mut k: usize = 0;
        while k < m
            invariant
                self.maps_wf(),
                self.aligned(),
                *sets == self.program_at_pareto_front_valset,
                self.pareto_front_valset@.dom().len() == sets_view(*sets).dom().len(),
                n == self.program_candidates@.len(),
                m == sets.key_seq().len(),
                k <= m,
                forall|j: int|
                    0 <= j < k ==> self.pareto_front_valset@.dom().contains(
                        #[trigger] sets.key_seq()[j],
                    ),
                forall|j: int, p: usize|
                    0 <= j < k && #[trigger] sets.value_seq()[j]@.contains(p) ==> p < n,
            decreases m - k,
        {
            let id = sets.key_at(k);
            proof {
                sets.lemma_entry(k as int);
                assert(sets_view(*sets).dom().contains(id@));
                assert(sets_view(*sets)[id@] == sets.value_seq()[k as int]@);
            }
            if !self.pareto_front_valset.contains_key(id) {
                let mut text = "val_id ".to_owned();
                text.append(id.debug_text().as_str());
                text.append(" in program_at_pareto_front_valset but not in pareto_front_valset");
                return Err(GEPAError::Config(text));
            }
            let list = members(sets.value_at(k));
            let mut j: usize = 0;
            while j < list.len()
                invariant
                    self.aligned(),
                    *sets == self.program_at_pareto_front_valset,
                    self.pareto_front_valset@.dom().len() == sets_view(*sets).dom().len(),
                    n == self.program_candidates@.len(),
                    k < sets.value_seq().len(),
                    sets_view(*sets).dom().contains(id@),
                    sets_view(*sets)[id@] == sets.value_seq()[k as int]@,
                    list@.to_set() == sets.value_seq()[k as int]@,
                    j <= list@.len(),
                    forall|q: int| 0 <= q < j ==> (#[trigger] list@[q]) < n,
                decreases list@.len() - j,
            {
                if list[j] >= n {
                    let mut text = "Program index ".to_owned();
                    text.append(decimal(list[j] as u64).as_str());
                    text.append(
                        " in valset Pareto front exceeds number of program candidates (",
                    );
                    text.append(decimal(n as u64).as_str());
                    text.append(")");
                    proof {
                        assert(list@.contains(list@[j as int]));
                        assert(list@.to_set().contains(list@[j as int]));
                        assert(sets_view(*sets)[id@].contains(list@[j as int]));
                    }
                    return Err(GEPAError::Config(text));
                }
                j += 1;
            }
            assert forall|p: usize| #[trigger] sets.value_seq()[k as int]@.contains(p) implies p
                < n by {
                assert(list@.to_set().contains(p));
                assert(list@.contains(p));
            }
            k += 1;
        }
        proof {
            self.pareto_front_valset.lemma_size();
            sets.lemma_size();
            assert forall|id: Id::V| #[trigger] sets_dom.contains(id) implies front_dom.contains(
                id,
            ) by {
                let j = sets.lemma_position(id);
            }
            vstd::set_lib::lemma_subset_equality(sets_dom, front_dom);
            assert forall|id: Id::V, p: usize|
                sets_view(*sets).dom().contains(id) && #[trigger] sets_view(
                    *sets,
                )[id].contains(p) implies p < n by {
                let j = sets.lemma_position(id);
                assert(sets.value_seq()[j]@.contains(p));
            }
        }
        Ok(())
    }

    /// The version of the saved state `text`, if it is supported.
    ///
    /// # Errors
    /// A JSON error where the text is no JSON; a configuration error where the
    /// version is newer than this library's.
    pub fn saved_version(text: &str) -> (r: Result<u32>)
        ensures
            match json_number_field(text@, "validation_schema_version"@) {
                None => r matches Err(e) && e is Serde,
                Some(field) => if version_of(field) <= Self::SCHEMA_VERSION {
                    r matches Ok(version) && version == version_of(field)
                } else {
                    &&& r matches Err(e)
                    &&& e matches GEPAError::Config(message)
                    &&& message@ == unsupported_text(
                        "GEPAState"@,
                        version_of(field),
                        Self::SCHEMA_VERSION,
                    )
                },
            },
    {
        check_version(text, Self::SCHEMA_VERSION, "GEPAState")
    }

    /// Whether `text` names something that is wrong with the front on the
    /// validation examples.
    pub open spec fn front_complaint(&self, text: Seq<char>) -> bool {
        let front = self.pareto_front_valset@;
        let sets = sets_view(self.program_at_pareto_front_valset);
        if front.dom().len() != sets.dom().len() {
            text
                == "pareto_front_valset and program_at_pareto_front_valset have different sizes"@
        } else {
            exists|id: Id::V| #[trigger] sets.dom().contains(id) && {
                ||| {
                    &&& !front.dom().contains(id)
                    &&& text == "val_id "@ + Id::debug_spec(id)
                        + " in program_at_pareto_front_valset but not in pareto_front_valset"@
                }
                ||| exists|p: usize| #[trigger] sets[id].contains(p) && {
                    &&& p >= self.program_candidates@.len()
                    &&& text == "Program index "@ + decimal_text(p as nat)
                        + " in valset Pareto front exceeds number of program candidates ("@
                        + decimal_text(self.program_candidates@.len()) + ")"@
                }
            }
        }
    }

    /// What is wrong with the length of a list, if anything is.
    pub open spec fn length_text(&self) -> Option<Seq<char>> {
        let n = self.program_candidates@.len();
        if self.parent_program_for_candidate@.len() != n {
            Some(
                length_fault(
                    "parent_program_for_candidate"@,
                    self.parent_program_for_candidate@.len(),
                    n,
                ),
            )
        } else if self.named_predictor_id_to_update_next@.len() != n {
            Some(
                length_fault(
                    "named_predictor_id_to_update_next"@,
                    self.named_predictor_id_to_update_next@.len(),
                    n,
                ),
            )
        } else if self.prog_candidate_val_subscores@.len() != n {
            Some(
                length_fault(
                    "prog_candidate_val_subscores"@,
                    self.prog_candidate_val_subscores@.len(),
                    n,
                ),
            )
        } else if self.prog_candidate_mean_scores@.len() != n {
            Some(
                length_fault(
                    "prog_candidate_mean_scores"@,
                    self.prog_candidate_mean_scores@.len(),
                    n,
                ),
            )
        } else if self.prog_candidate_objective_scores@.len() != n {
            Some(
                length_fault(
                    "prog_candidate_objective_scores"@,
                    self.prog_candidate_objective_scores@.len(),
                    n,
                ),
            )
        } else if self.num_metric_calls_by_discovery@.len() != n {
            Some(
                length_fault(
                    "num_metric_calls_by_discovery"@,
                    self.num_metric_calls_by_discovery@.len(),
                    n,
                ),
            )
        } else {
            None
        }
    }
}

fn check_len(len: usize, name: &str, n: usize) -> (r: Result<()>)
    ensures
        match r {
            Ok(()) => len == n,
            Err(e) => {
                &&& len != n
                &&& e matches GEPAError::Config(text)
                &&& text@ == length_fault(name@, len as nat, n as nat)
            },
        },
{
    if len != n {
        let mut text = "GEPAState invariant: ".to_owned();
        text.append(name);
        text.append(" has len ");
        text.append(decimal(len as u64).as_str());
        text.append(" but program_candidates has len ");
        text.append(decimal(n as u64).as_str());
        return Err(GEPAError::Config(text));
    }
    Ok(())
}

} // verus!
