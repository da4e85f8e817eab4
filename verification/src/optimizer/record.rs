//! A state in the form in which it is saved.
use std::collections::HashSet;

use vstd::prelude::*;

use crate::keyed::{
    from_pairs, mapped, pair_keys, pair_values, same_entries, to_pairs, KeyMap, MapKey,
};
use crate::optimizer::adapter::{candidate_entries, Candidate};
use crate::optimizer::cache::{listed, lists_cache, CachedEvaluation, EvaluationCache};
use crate::optimizer::data_loader::DataId;
use crate::optimizer::evaluation::value_list;
use crate::optimizer::frontier::FrontierType;
use crate::optimizer::fronts::sets_view;
use crate::optimizer::result::{copy_candidates, copy_counts, copy_parents};
use crate::optimizer::state::{GEPAState, TraceEntry};
use crate::score::{averages_to, Score, ScoreArithmetic};
use crate::text::text_views;
use crate::utils::programs::{members, set_of, ProgramIdx};

verus! {

broadcast use vstd::std_specs::hash::group_hash_axioms;

/// What is saved of a state: maps as lists of pairs, and sets as lists. The
/// fronts on pairs of example and objective and the best outputs are not saved.
pub struct StateRecord<Id: DataId> {
    /// The version of the schema.
    pub validation_schema_version: u32,
    /// The candidates.
    pub program_candidates: Vec<Candidate>,
    /// Their parents.
    pub parent_program_for_candidate: Vec<Vec<Option<ProgramIdx>>>,
    /// Their scores by example.
    pub prog_candidate_val_subscores: Vec<Vec<(Id, Score)>>,
    /// Their objective means.
    pub prog_candidate_objective_scores: Vec<Vec<(String, Score)>>,
    /// The evaluations used when each was found.
    pub num_metric_calls_by_discovery: Vec<usize>,
    /// The best score on each example.
    pub pareto_front_valset: Vec<(Id, Score)>,
    /// The candidates that reach it.
    pub program_at_pareto_front_valset: Vec<(Id, Vec<ProgramIdx>)>,
    /// The best mean of each objective.
    pub objective_pareto_front: Vec<(String, Score)>,
    /// The candidates that reach it.
    pub program_at_pareto_front_objectives: Vec<(String, Vec<ProgramIdx>)>,
    /// The names of the seed's components.
    pub list_of_named_predictors: Vec<String>,
    /// The component that is to be updated next, for each candidate.
    pub named_predictor_id_to_update_next: Vec<usize>,
    /// Which fronts candidates are selected from.
    pub frontier_type: FrontierType,
    /// The iteration.
    pub i: usize,
    /// The number of evaluations on the full validation set.
    pub num_full_ds_evals: usize,
    /// The number of examples that were evaluated.
    pub total_num_evals: usize,
    /// The entries of the cache, if there is one.
    pub evaluation_cache: Option<Vec<(String, CachedEvaluation)>>,
    /// What every iteration came to.
    pub full_program_trace: Vec<TraceEntry>,
}

/// Whether the pairs are the entries of the map, in order.
pub open spec fn lists_map<K: MapKey, V>(pairs: Seq<(K, V)>, m: KeyMap<K, V>) -> bool {
    pair_keys(pairs) == m.key_seq() && pair_values(pairs) == m.value_seq()
}

/// Whether the pairs are the sets of the map, in order.
pub open spec fn lists_sets<K: MapKey>(
    pairs: Seq<(K, Vec<ProgramIdx>)>,
    m: KeyMap<K, HashSet<ProgramIdx>>,
) -> bool {
    &&& pair_keys(pairs) == m.key_seq()
    &&& forall|i: int|
        0 <= i < pairs.len() ==> (#[trigger] pairs[i]).1@.to_set() == m.value_seq()[i]@
}

impl<Id: DataId> StateRecord<Id> {
    /// The cached results are valid.
    pub open spec fn wf(&self) -> bool {
        self.evaluation_cache matches Some(entries) ==> forall|i: int|
            0 <= i < entries@.len() ==> (#[trigger] entries@[i]).1.wf()
    }

    /// Whether this is what is saved of `state`.
    pub open spec fn describes(&self, state: GEPAState<Id>) -> bool {
        &&& self.wf()
        &&& self.validation_schema_version == state.validation_schema_version
        &&& self.program_candidates@.len() == state.program_candidates@.len()
        &&& forall|i: int|
            0 <= i < self.program_candidates@.len() ==> candidate_entries(
                #[trigger] self.program_candidates@[i],
            ) == candidate_entries(state.program_candidates@[i])
        &&& self.parent_program_for_candidate@.len() == state.parent_program_for_candidate@.len()
        &&& forall|i: int|
            0 <= i < self.parent_program_for_candidate@.len() ==> (
            #[trigger] self.parent_program_for_candidate@[i])@
                == state.parent_program_for_candidate@[i]@
        &&& self.prog_candidate_val_subscores@.len() == state.prog_candidate_val_subscores@.len()
        &&& forall|i: int|
            0 <= i < self.prog_candidate_val_subscores@.len() ==> lists_map(
                (#[trigger] self.prog_candidate_val_subscores@[i])@,
                state.prog_candidate_val_subscores@[i],
            )
        &&& self.prog_candidate_objective_scores@.len()
            == state.prog_candidate_objective_scores@.len()
        &&& forall|i: int|
            0 <= i < self.prog_candidate_objective_scores@.len() ==> lists_map(
                (#[trigger] self.prog_candidate_objective_scores@[i])@,
                state.prog_candidate_objective_scores@[i],
            )
        &&& self.num_metric_calls_by_discovery@ == state.num_metric_calls_by_discovery@
        &&& lists_map(self.pareto_front_valset@, state.pareto_front_valset)
        &&& lists_sets(
            self.program_at_pareto_front_valset@,
            state.program_at_pareto_front_valset,
        )
        &&& lists_map(self.objective_pareto_front@, state.objective_pareto_front)
        &&& lists_sets(
            self.program_at_pareto_front_objectives@,
            state.program_at_pareto_front_objectives,
        )
        &&& text_views(self.list_of_named_predictors@) == text_views(
            state.list_of_named_predictors@,
        )
        &&& self.named_predictor_id_to_update_next@ == state.named_predictor_id_to_update_next@
        &&& self.frontier_type == state.frontier_type
        &&& self.i == state.i
        &&& self.num_full_ds_evals == state.num_full_ds_evals
        &&& self.total_num_evals == state.total_num_evals
        &&& match (self.evaluation_cache, state.evaluation_cache) {
            (Some(entries), Some(cache)) => lists_cache(entries@, cache@),
            (None, None) => true,
            _ => false,
        }
        &&& self.full_program_trace@ == state.full_program_trace@
    }
}

pub(crate) fn list_maps<K: MapKey>(maps: &Vec<KeyMap<K, Score>>) -> (lists: Vec<Vec<(K, Score)>>)
    requires
        forall|i: int| 0 <= i < maps@.len() ==> (#[trigger] maps@[i]).wf(),
    ensures
        lists@.len() == maps@.len(),
        forall|i: int| 0 <= i < lists@.len() ==> lists_map((#[trigger] lists@[i])@, maps@[i]),
{
    let mut lists: Vec<Vec<(K, Score)>> = Vec::new();
    let mut i: usize = 0;
    while i < maps.len()
        invariant
            forall|j: int| 0 <= j < maps@.len() ==> (#[trigger] maps@[j]).wf(),
            i <= maps@.len(),
            lists@.len() == i,
            forall|j: int| 0 <= j < i ==> lists_map((#[trigger] lists@[j])@, maps@[j]),
        decreases maps@.len() - i,
    {
        assert(maps@[i as int].wf());
        lists.push(to_pairs(&maps[i]));
        i += 1;
    }
    lists
}

pub(crate) fn list_sets<K: MapKey>(m: &KeyMap<K, HashSet<ProgramIdx>>) -> (pairs: Vec<(K, Vec<ProgramIdx>)>)
    requires
        m.wf(),
    ensures
        lists_sets(pairs@, *m),
{
    let n: usize = m.len();
    let mut pairs: Vec<(K, Vec<usize>)> = Vec::new();
    let mut i: usize = 0;
    while i < n
        invariant
            m.wf(),
            n == m.key_seq().len(),
            i <= n,
            pairs@.len() == i,
            forall|j: int| 0 <= j < i ==> (#[trigger] pairs@[j]).0@ == m.key_seq()[j],
            forall|j: int|
                0 <= j < i ==> (#[trigger] pairs@[j]).1@.to_set() == m.value_seq()[j]@,
        decreases n - i,
    {
        let list = members(m.value_at(i));
        let list = crate::utils::pareto::sorted(&list);
        proof {
            assert forall|p: usize| list@.to_set().contains(p) == m.value_seq()[i as int]@.contains(
                p,
            ) by {
                assert(list@.contains(p) == list@.to_set().contains(p));
            }
            assert(list@.to_set() =~= m.value_seq()[i as int]@);
        }
        pairs.push((m.key_at(i).duplicate(), list));
        i += 1;
    }
    assert(pair_keys(pairs@) =~= m.key_seq());
    pairs
}

/// A copy of a list of strings.
fn copy_texts(list: &Vec<String>) -> (copy: Vec<String>)
    ensures
        text_views(copy@) == text_views(list@),
{
    let mut copy: Vec<String> = Vec::new();
    let mut i: usize = 0;
    while i < list.len()
        invariant
            i <= list@.len(),
            copy@.len() == i,
            forall|j: int| 0 <= j < i ==> (#[trigger] copy@[j])@ == list@[j]@,
        decreases list@.len() - i,
    {
        copy.push(list[i].clone());
        i += 1;
    }
    assert(text_views(copy@) =~= text_views(list@));
    copy
}

fn copy_trace(list: &Vec<TraceEntry>) -> (copy: Vec<TraceEntry>)
    ensures
        copy@ == list@,
{
    let mut copy: Vec<TraceEntry> = Vec::new();
    let mut i: usize = 0;
    while i < list.len()
        invariant
            i <= list@.len(),
            copy@ == list@.take(i as int),
        decreases list@.len() - i,
    {
        copy.push(list[i]);
        i += 1;
        assert(copy@ =~= list@.take(i as int));
    }
    assert(copy@ =~= list@);
    copy
}

/// The lists back as maps.
pub(crate) fn read_maps<K: MapKey>(lists: Vec<Vec<(K, Score)>>) -> (maps: Vec<KeyMap<K, Score>>)
    ensures
        maps@.len() == lists@.len(),
        forall|i: int|
            0 <= i < maps@.len() ==> (#[trigger] maps@[i]).wf() && (pair_keys(
                lists@[i]@,
            ).no_duplicates() ==> lists_map(lists@[i]@, maps@[i])),
        forall|i: int|
            0 <= i < maps@.len() ==> (#[trigger] maps@[i])@ == mapped(
                lists@[i]@,
                lists@[i]@.len() as int,
            ),
{
    let ghost all = lists@;
    let mut maps: Vec<KeyMap<K, Score>> = Vec::new();
    let ghost mut i: int = 0;
    for list in it: lists.into_iter()
        invariant
            it.seq() == all,
            i == it.index(),
            maps@.len() == i,
            forall|j: int|
                0 <= j < i ==> (#[trigger] maps@[j]).wf() && (pair_keys(all[j]@).no_duplicates()
                    ==> lists_map(all[j]@, maps@[j])),
            forall|j: int|
                0 <= j < i ==> (#[trigger] maps@[j])@ == mapped(all[j]@, all[j]@.len() as int),
    {
        assert(all[i] == list);
        maps.push(from_pairs(list));
        proof {
            i = i + 1;
        }
    }
    maps
}

/// The lists as sets.
pub open spec fn as_sets<K>(m: Map<K, Vec<ProgramIdx>>) -> Map<K, Set<ProgramIdx>> {
    m.map_values(|list: Vec<ProgramIdx>| list@.to_set())
}

/// The map of a list of pairs, with sets in place of lists.
pub open spec fn mapped_sets<K: MapKey>(pairs: Seq<(K, Vec<ProgramIdx>)>) -> Map<
    K::V,
    Set<ProgramIdx>,
> {
    as_sets(mapped(pairs, pairs.len() as int))
}

/// The lists back as sets.
pub(crate) fn read_sets<K: MapKey>(pairs: Vec<(K, Vec<ProgramIdx>)>) -> (m: KeyMap<K, HashSet<ProgramIdx>>)
    ensures
        m.wf(),
        pair_keys(pairs@).no_duplicates() ==> lists_sets(pairs@, m),
        sets_view(m) == mapped_sets(pairs@),
{
    let ghost all = pairs@;
    let ghost keys = pair_keys(all);
    let mut m: KeyMap<K, HashSet<usize>> = KeyMap::new();
    let ghost mut i: int = 0;
    assert(keys.take(0) =~= m.key_seq());
    assert(sets_view(m) =~= as_sets(mapped(all, 0)));
    for pair in it: pairs.into_iter()
        invariant
            it.seq() == all,
            i == it.index(),
            keys == pair_keys(all),
            m.wf(),
            sets_view(m) == as_sets(mapped(all, i)),
            keys.no_duplicates() ==> m.key_seq() == keys.take(i) && forall|j: int|
                0 <= j < i ==> (#[trigger] m.value_seq()[j])@ == all[j].1@.to_set(),
    {
        let (k, list) = pair;
        proof {
            assert(all[i] == (k, list));
            assert(keys[i] == k@);
            if keys.no_duplicates() && m@.dom().contains(k@) {
                let j = m.lemma_position(k@);
                assert(keys[j] == keys[i]);
            }
        }
        let set = set_of(&list);
        let ghost before = sets_view(m);
        m.insert(k, set);
        proof {
            assert(sets_view(m) =~= before.insert(k@, list@.to_set()));
            assert(as_sets(mapped(all, i + 1)) =~= as_sets(mapped(all, i)).insert(
                k@,
                list@.to_set(),
            ));
            assert(keys.take(i + 1) =~= keys.take(i).push(keys[i]));
            i = i + 1;
        }
    }
    assert(keys.take(i) =~= keys);
    m
}

/// The mean of each map's values.
fn means_of_maps<K: MapKey, A: ScoreArithmetic>(maps: &Vec<KeyMap<K, Score>>, arith: &A) -> (means:
    Vec<Score>)
    requires
        forall|i: int| 0 <= i < maps@.len() ==> (#[trigger] maps@[i]).wf(),
    ensures
        means@.len() == maps@.len(),
        forall|i: int|
            0 <= i < maps@.len() && maps@[i].value_seq().len() > 0 ==> averages_to(
                *arith,
                maps@[i].value_seq(),
                #[trigger] means@[i],
            ),
{
    let mut means: Vec<Score> = Vec::new();
    let mut i: usize = 0;
    while i < maps.len()
        invariant
            forall|j: int| 0 <= j < maps@.len() ==> (#[trigger] maps@[j]).wf(),
            i <= maps@.len(),
            means@.len() == i,
            forall|j: int|
                0 <= j < i && maps@[j].value_seq().len() > 0 ==> averages_to(
                    *arith,
                    maps@[j].value_seq(),
                    #[trigger] means@[j],
                ),
        decreases maps@.len() - i,
    {
        assert(maps@[i as int].wf());
        let mean = if maps[i].is_empty() {
            Score::neg_infinity()
        } else {
            let list = value_list(&maps[i]);
            arith.mean(&list)
        };
        means.push(mean);
        i += 1;
    }
    means
}

/// Whether `after` has all that is saved of `before`.
pub open spec fn resumes<Id: DataId>(before: GEPAState<Id>, after: GEPAState<Id>) -> bool {
    &&& after.maps_wf()
    &&& after.validation_schema_version == before.validation_schema_version
    &&& after.candidates_view() == before.candidates_view()
    &&& after.parent_program_for_candidate@.len() == before.parent_program_for_candidate@.len()
    &&& forall|i: int|
        0 <= i < after.parent_program_for_candidate@.len() ==> (
        #[trigger] after.parent_program_for_candidate@[i])@
            == before.parent_program_for_candidate@[i]@
    &&& after.subscores_view() == before.subscores_view()
    &&& after.objectives_seq() == before.objectives_seq()
    &&& after.num_metric_calls_by_discovery@ == before.num_metric_calls_by_discovery@
    &&& same_entries(after.pareto_front_valset, before.pareto_front_valset)
    &&& sets_view(after.program_at_pareto_front_valset) == sets_view(
        before.program_at_pareto_front_valset,
    )
    &&& same_entries(after.objective_pareto_front, before.objective_pareto_front)
    &&& sets_view(after.program_at_pareto_front_objectives) == sets_view(
        before.program_at_pareto_front_objectives,
    )
    &&& text_views(after.list_of_named_predictors@) == text_views(before.list_of_named_predictors@)
    &&& after.named_predictor_id_to_update_next@ == before.named_predictor_id_to_update_next@
    &&& after.frontier_type == before.frontier_type
    &&& after.i == before.i
    &&& after.num_full_ds_evals == before.num_full_ds_evals
    &&& after.total_num_evals == before.total_num_evals
    &&& match (before.evaluation_cache, after.evaluation_cache) {
        (Some(a), Some(b)) => a@ == b@,
        (None, None) => true,
        _ => false,
    }
    &&& after.full_program_trace@ == before.full_program_trace@
}

impl<Id: DataId> GEPAState<Id> {
    /// What is saved of the state.
    pub fn record(&self) -> (record: StateRecord<Id>)
        requires
            self.maps_wf(),
        ensures
            record.describes(*self),
    {
        StateRecord {
            validation_schema_version: self.validation_schema_version,
            program_candidates: copy_candidates(&self.program_candidates),
            parent_program_for_candidate: copy_parents(&self.parent_program_for_candidate),
            prog_candidate_val_subscores: list_maps(&self.prog_candidate_val_subscores),
            prog_candidate_objective_scores: list_maps(&self.prog_candidate_objective_scores),
            num_metric_calls_by_discovery: copy_counts(&self.num_metric_calls_by_discovery),
            pareto_front_valset: to_pairs(&self.pareto_front_valset),
            program_at_pareto_front_valset: list_sets(&self.program_at_pareto_front_valset),
            objective_pareto_front: to_pairs(&self.objective_pareto_front),
            program_at_pareto_front_objectives: list_sets(
                &self.program_at_pareto_front_objectives,
            ),
            list_of_named_predictors: copy_texts(&self.list_of_named_predictors),
            named_predictor_id_to_update_next: copy_counts(&self.named_predictor_id_to_update_next),
            frontier_type: self.frontier_type,
            i: self.i,
            num_full_ds_evals: self.num_full_ds_evals,
            total_num_evals: self.total_num_evals,
            evaluation_cache: match &self.evaluation_cache {
                Some(cache) => Some(cache.to_entries()),
                None => None,
            },
            full_program_trace: copy_trace(&self.full_program_trace),
        }
    }

    /// The state that was saved as `record`. Whatever is saved of a state comes
    /// back; the mean scores are computed anew. The front on pairs and the best
    /// outputs are not saved.
    pub fn restore<A: ScoreArithmetic>(record: StateRecord<Id>, arith: &A) -> (state: Self)
        requires
            record.wf(),
        ensures
            state.maps_wf(),
            forall|saved: GEPAState<Id>|
                saved.maps_wf() && #[trigger] record.describes(saved) ==> resumes(saved, state),
            state.prog_candidate_val_subscores@.len() == record.prog_candidate_val_subscores@.len(),
            state.prog_candidate_mean_scores@.len() == record.prog_candidate_val_subscores@.len(),
            state.prog_candidate_objective_scores@.len()
                == record.prog_candidate_objective_scores@.len(),
            forall|i: int|
                0 <= i < state.prog_candidate_val_subscores@.len() ==> (
                #[trigger] state.prog_candidate_val_subscores@[i])@ == mapped(
                    record.prog_candidate_val_subscores@[i]@,
                    record.prog_candidate_val_subscores@[i]@.len() as int,
                ),
            forall|i: int|
                0 <= i < state.prog_candidate_objective_scores@.len() ==> (
                #[trigger] state.prog_candidate_objective_scores@[i])@ == mapped(
                    record.prog_candidate_objective_scores@[i]@,
                    record.prog_candidate_objective_scores@[i]@.len() as int,
                ),
            state.pareto_front_valset@ == mapped(
                record.pareto_front_valset@,
                record.pareto_front_valset@.len() as int,
            ),
            sets_view(state.program_at_pareto_front_valset) == mapped_sets(
                record.program_at_pareto_front_valset@,
            ),
            state.objective_pareto_front@ == mapped(
                record.objective_pareto_front@,
                record.objective_pareto_front@.len() as int,
            ),
            sets_view(state.program_at_pareto_front_objectives) == mapped_sets(
                record.program_at_pareto_front_objectives@,
            ),
            state.validation_schema_version == record.validation_schema_version,
            state.program_candidates == record.program_candidates,
            state.parent_program_for_candidate == record.parent_program_for_candidate,
            state.num_metric_calls_by_discovery == record.num_metric_calls_by_discovery,
            state.list_of_named_predictors == record.list_of_named_predictors,
            state.named_predictor_id_to_update_next == record.named_predictor_id_to_update_next,
            state.frontier_type == record.frontier_type,
            state.i == record.i,
            state.num_full_ds_evals == record.num_full_ds_evals,
            state.total_num_evals == record.total_num_evals,
            state.full_program_trace == record.full_program_trace,
            match (record.evaluation_cache, state.evaluation_cache) {
                (Some(entries), Some(cache)) => cache@ == listed(entries@),
                (None, None) => true,
                _ => false,
            },
            state.pareto_front_cartesian.key_seq().len() == 0,
            state.program_at_pareto_front_cartesian.key_seq().len() == 0,
            state.best_outputs_valset is None,
            state.means_by(*arith),
    {
        let ghost rec = record;
        let maps = read_maps(record.prog_candidate_val_subscores);
        let means = means_of_maps(&maps, arith);
        let cache = match record.evaluation_cache {
            Some(entries) => Some(EvaluationCache::from_entries(entries)),
            None => None,
        };
        let state = GEPAState {
            validation_schema_version: record.validation_schema_version,
            program_candidates: record.program_candidates,
            parent_program_for_candidate: record.parent_program_for_candidate,
            prog_candidate_val_subscores: maps,
            prog_candidate_mean_scores: means,
            prog_candidate_objective_scores: read_maps(record.prog_candidate_objective_scores),
            num_metric_calls_by_discovery: record.num_metric_calls_by_discovery,
            pareto_front_valset: from_pairs(record.pareto_front_valset),
            program_at_pareto_front_valset: read_sets(record.program_at_pareto_front_valset),
            objective_pareto_front: from_pairs(record.objective_pareto_front),
            program_at_pareto_front_objectives: read_sets(
                record.program_at_pareto_front_objectives,
            ),
            pareto_front_cartesian: KeyMap::new(),
            program_at_pareto_front_cartesian: KeyMap::new(),
            list_of_named_predictors: record.list_of_named_predictors,
            named_predictor_id_to_update_next: record.named_predictor_id_to_update_next,
            frontier_type: record.frontier_type,
            i: record.i,
            num_full_ds_evals: record.num_full_ds_evals,
            total_num_evals: record.total_num_evals,
            evaluation_cache: cache,
            full_program_trace: record.full_program_trace,
            best_outputs_valset: None,
        };
        proof {
            assert forall|saved: GEPAState<Id>|
                saved.maps_wf() && #[trigger] rec.describes(saved) implies resumes(
                saved,
                state,
            ) by {
                lemma_resumes(rec, saved, state);
            }
        }
        state
    }
}

/// The sets that come back are those that were saved.
pub(crate) proof fn lemma_sets_back<K: MapKey>(
    pairs: Seq<(K, Vec<ProgramIdx>)>,
    a: KeyMap<K, HashSet<ProgramIdx>>,
    b: KeyMap<K, HashSet<ProgramIdx>>,
)
    requires
        a.wf(),
        b.wf(),
        lists_sets(pairs, a),
        lists_sets(pairs, b),
    ensures
        sets_view(a) == sets_view(b),
{
    assert forall|k: K::V| sets_view(a).dom().contains(k) == sets_view(b).dom().contains(k) by {}
    assert forall|k: K::V| #[trigger] sets_view(a).dom().contains(k) implies sets_view(a)[k]
        == sets_view(b)[k] by {
        let p = a.lemma_position(k);
        b.lemma_entry(p);
        assert(pair_keys(pairs).len() == pairs.len());
        assert(pairs[p].1@.to_set() == a.value_seq()[p]@);
        assert(pairs[p].1@.to_set() == b.value_seq()[p]@);
    }
    assert(sets_view(a) =~= sets_view(b));
}

/// Lists of maps that come back are those that were saved.
pub(crate) proof fn lemma_maps_back<K: MapKey>(
    lists: Seq<Vec<(K, Score)>>,
    a: Seq<KeyMap<K, Score>>,
    b: Seq<KeyMap<K, Score>>,
)
    requires
        lists.len() == a.len(),
        lists.len() == b.len(),
        forall|i: int| 0 <= i < a.len() ==> (#[trigger] a[i]).wf(),
        forall|i: int| 0 <= i < lists.len() ==> lists_map((#[trigger] lists[i])@, a[i]),
        forall|i: int|
            0 <= i < b.len() ==> (#[trigger] b[i]).wf() && (pair_keys(lists[i]@).no_duplicates()
                ==> lists_map(lists[i]@, b[i])),
    ensures
        forall|i: int| 0 <= i < a.len() ==> (#[trigger] a[i])@ == b[i]@,
{
    assert forall|i: int| 0 <= i < a.len() implies (#[trigger] a[i])@ == b[i]@ by {
        assert(a[i].wf());
        assert(lists_map(lists[i]@, a[i]));
        assert(b[i].wf());
        a[i].lemma_same_entries(&b[i]);
    }
}

spec fn read_back<Id: DataId>(record: StateRecord<Id>, state: GEPAState<Id>) -> bool {
    &&& state.maps_wf()
    &&& state.validation_schema_version == record.validation_schema_version
    &&& state.program_candidates == record.program_candidates
    &&& state.parent_program_for_candidate == record.parent_program_for_candidate
    &&& state.prog_candidate_val_subscores@.len() == record.prog_candidate_val_subscores@.len()
    &&& forall|i: int|
        0 <= i < state.prog_candidate_val_subscores@.len() ==> (
        #[trigger] state.prog_candidate_val_subscores@[i]).wf() && (pair_keys(
            record.prog_candidate_val_subscores@[i]@,
        ).no_duplicates() ==> lists_map(
            record.prog_candidate_val_subscores@[i]@,
            state.prog_candidate_val_subscores@[i],
        ))
    &&& state.prog_candidate_objective_scores@.len()
        == record.prog_candidate_objective_scores@.len()
    &&& forall|i: int|
        0 <= i < state.prog_candidate_objective_scores@.len() ==> (
        #[trigger] state.prog_candidate_objective_scores@[i]).wf() && (pair_keys(
            record.prog_candidate_objective_scores@[i]@,
        ).no_duplicates() ==> lists_map(
            record.prog_candidate_objective_scores@[i]@,
            state.prog_candidate_objective_scores@[i],
        ))
    &&& state.num_metric_calls_by_discovery == record.num_metric_calls_by_discovery
    &&& pair_keys(record.pareto_front_valset@).no_duplicates() ==> lists_map(
        record.pareto_front_valset@,
        state.pareto_front_valset,
    )
    &&& pair_keys(record.program_at_pareto_front_valset@).no_duplicates() ==> lists_sets(
        record.program_at_pareto_front_valset@,
        state.program_at_pareto_front_valset,
    )
    &&& pair_keys(record.objective_pareto_front@).no_duplicates() ==> lists_map(
        record.objective_pareto_front@,
        state.objective_pareto_front,
    )
    &&& pair_keys(record.program_at_pareto_front_objectives@).no_duplicates() ==> lists_sets(
        record.program_at_pareto_front_objectives@,
        state.program_at_pareto_front_objectives,
    )
    &&& state.list_of_named_predictors == record.list_of_named_predictors
    &&& state.named_predictor_id_to_update_next == record.named_predictor_id_to_update_next
    &&& state.frontier_type == record.frontier_type
    &&& state.i == record.i
    &&& state.num_full_ds_evals == record.num_full_ds_evals
    &&& state.total_num_evals == record.total_num_evals
    &&& match (record.evaluation_cache, state.evaluation_cache) {
        (Some(entries), Some(cache)) => forall|contents: Map<
            Seq<char>,
            crate::optimizer::cache::CachedView,
        >| lists_cache(entries@, contents) ==> cache@ == contents,
        (None, None) => true,
        _ => false,
    }
    &&& state.full_program_trace == record.full_program_trace
}

proof fn lemma_resumes<Id: DataId>(
    record: StateRecord<Id>,
    saved: GEPAState<Id>,
    state: GEPAState<Id>,
)
    requires
        saved.maps_wf(),
        record.describes(saved),
        read_back(record, state),
    ensures
        resumes(saved, state),
{
    lemma_maps_back(
        record.prog_candidate_val_subscores@,
        saved.prog_candidate_val_subscores@,
        state.prog_candidate_val_subscores@,
    );
    lemma_maps_back(
        record.prog_candidate_objective_scores@,
        saved.prog_candidate_objective_scores@,
        state.prog_candidate_objective_scores@,
    );
    assert(state.subscores_view() =~= saved.subscores_view());
    assert(state.objectives_seq() =~= saved.objectives_seq());
    assert(state.candidates_view() =~= saved.candidates_view());
    lemma_sets_back(
        record.program_at_pareto_front_valset@,
        saved.program_at_pareto_front_valset,
        state.program_at_pareto_front_valset,
    );
    lemma_sets_back(
        record.program_at_pareto_front_objectives@,
        saved.program_at_pareto_front_objectives,
        state.program_at_pareto_front_objectives,
    );
}

} // verus!
