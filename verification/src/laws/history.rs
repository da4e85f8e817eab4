//! What a state keeps as candidates are added, and what is left of it when it is
//! saved.
use vstd::prelude::*;

use crate::error::Result;
use crate::keyed::same_entries;
use crate::laws::candidates::no_text_without_a_name;
use crate::laws::fronts::best_of_all;
use crate::laws::reflection::unknown_components_are_found;
use crate::laws::scores::top_score_is_the_greatest;
use crate::optimizer::adapter::{
    candidate_entries, component_text, distinct_names, entry_position,
};
use crate::optimizer::data_loader::DataId;
use crate::optimizer::engine::cache_synced;
use crate::optimizer::evaluation::ValsetEvaluation;
use crate::optimizer::frontier::FrontierType;
use crate::optimizer::fronts::sets_view;
use crate::optimizer::record::resumes;
use crate::optimizer::result::GEPAResult;
use crate::optimizer::result_record::same_result;
use crate::optimizer::run::{recorded, retexted, sound, Phase, Run};
use crate::optimizer::schema::version_of;
use crate::optimizer::state::{component_names, GEPAState, StepKind};
use crate::proposer::reflective_mutation::{
    first_unknown, mutation_changes_only_its_texts, Trial,
};
use crate::score::{lowest, top_score, Score};
use crate::text::text_views;

verus! {

/// A candidate that is added comes last, with its own components, parents and
/// mean score; those before it keep theirs.
pub proof fn a_new_candidate_comes_last<Id: DataId>(
    before: GEPAState<Id>,
    after: GEPAState<Id>,
    parents: Seq<usize>,
    entries: Seq<(Seq<char>, Seq<char>)>,
    evaluation: ValsetEvaluation<Id>,
    calls: usize,
    i: int,
)
    requires
        before.aligned(),
        after.extended(before, parents, entries, evaluation, calls),
        0 <= i < before.program_candidates@.len(),
    ensures
        ({
            let n = before.program_candidates@.len() as int;
            &&& after.program_candidates@.len() == n + 1
            &&& candidate_entries(after.program_candidates@[n]) == entries
            &&& candidate_entries(after.program_candidates@[i]) == candidate_entries(
                before.program_candidates@[i],
            )
            &&& after.parent_program_for_candidate@[i] == before.parent_program_for_candidate@[i]
            &&& after.parent_program_for_candidate@[n]@.len() == parents.len()
            &&& forall|j: int|
                0 <= j < parents.len() ==> #[trigger] after.parent_program_for_candidate@[n]@[j]
                    == Some(parents[j])
            &&& after.mean_scores().len() == n + 1
            &&& after.mean_scores()[i] == before.mean_scores()[i]
            &&& after.mean_scores()[n] == if evaluation.scores_by_val_id.value_seq().len() == 0 {
                lowest()
            } else {
                evaluation.mean_score
            }
            &&& after.prog_candidate_val_subscores@[n]@ == evaluation.scores_by_val_id@
            &&& after.num_metric_calls_by_discovery@[n] == calls
        }),
{
    let n = before.program_candidates@.len() as int;
    assert(after.candidates_view().len() == n + 1);
    assert(after.candidates_view()[n] == entries);
    assert(after.candidates_view()[i] == before.candidates_view()[i]);
    assert(after.parent_program_for_candidate@.drop_last()[i]
        == before.parent_program_for_candidate@[i]);
    assert(after.subscores_view().len() == n + 1);
    assert(after.subscores_view()[n] == evaluation.scores_by_val_id@);
    assert(after.prog_candidate_val_subscores@.drop_last()[i]
        == before.prog_candidate_val_subscores@[i]);
}

/// Adding a candidate never lowers the best mean score.
pub proof fn the_best_mean_never_falls<Id: DataId>(
    before: GEPAState<Id>,
    after: GEPAState<Id>,
    parents: Seq<usize>,
    entries: Seq<(Seq<char>, Seq<char>)>,
    evaluation: ValsetEvaluation<Id>,
    calls: usize,
)
    requires
        before.aligned(),
        after.extended(before, parents, entries, evaluation, calls),
    ensures
        top_score(after.mean_scores()).at_least(top_score(before.mean_scores())),
{
    let a = before.mean_scores();
    let b = after.mean_scores();
    top_score_is_the_greatest(a);
    top_score_is_the_greatest(b);
    if exists|i: int| 0 <= i < a.len() && !(#[trigger] a[i]).nan() {
        let i = choose|i: int| 0 <= i < a.len() && a[i] == top_score(a);
        a_new_candidate_comes_last(before, after, parents, entries, evaluation, calls, i);
        assert(b[i] == a[i]);
        assert(top_score(b).at_least(b[i]));
    } else {
        assert(top_score(a) == lowest());
    }
}

/// The record of an iteration comes last, and says which candidate it brought.
pub proof fn an_iteration_is_recorded_last<Id: DataId>(
    before: GEPAState<Id>,
    after: GEPAState<Id>,
    accepted: bool,
    tag: StepKind,
)
    requires
        recorded(before, after, accepted, tag),
        0 < before.program_candidates@.len() <= usize::MAX,
    ensures
        after.full_program_trace@.len() == before.full_program_trace@.len() + 1,
        after.full_program_trace@.drop_last() == before.full_program_trace@,
        after.full_program_trace@.last().iteration == before.i,
        after.full_program_trace@.last().accepted == accepted,
        after.full_program_trace@.last().tag == tag,
        after.full_program_trace@.last().total_num_evals == before.total_num_evals,
        accepted ==> (after.full_program_trace@.last().new_program_idx matches Some(p) && p + 1
            == before.program_candidates@.len()),
        !accepted ==> after.full_program_trace@.last().new_program_idx is None,
        after.program_candidates == before.program_candidates,
        sound(before) ==> sound(after),
{
    assert(after.full_program_trace@.drop_last() =~= before.full_program_trace@);
}

/// A state that is resumed has the candidates, the parents, the scores, the counts
/// and the fronts of the state that was saved: whatever the fronts were the best
/// of, they are the best of still.
pub proof fn a_resumed_state_has_what_was_saved<Id: DataId>(
    before: GEPAState<Id>,
    after: GEPAState<Id>,
    subs: Seq<Map<Id::V, Score>>,
    objectives: Seq<Map<Seq<char>, Score>>,
    i: int,
)
    requires
        resumes(before, after),
        0 <= i < before.program_candidates@.len(),
        before.parent_program_for_candidate@.len() == before.program_candidates@.len(),
        before.prog_candidate_val_subscores@.len() == before.program_candidates@.len(),
    ensures
        after.program_candidates@.len() == before.program_candidates@.len(),
        candidate_entries(after.program_candidates@[i]) == candidate_entries(
            before.program_candidates@[i],
        ),
        after.parent_program_for_candidate@[i]@ == before.parent_program_for_candidate@[i]@,
        after.prog_candidate_val_subscores@[i]@ == before.prog_candidate_val_subscores@[i]@,
        after.total_num_evals == before.total_num_evals,
        after.num_full_ds_evals == before.num_full_ds_evals,
        after.i == before.i,
        after.full_program_trace@ == before.full_program_trace@,
        after.named_predictor_id_to_update_next@ == before.named_predictor_id_to_update_next@,
        best_of_all(
            subs,
            before.pareto_front_valset@,
            sets_view(before.program_at_pareto_front_valset),
        ) ==> best_of_all(
            subs,
            after.pareto_front_valset@,
            sets_view(after.program_at_pareto_front_valset),
        ),
        best_of_all(
            objectives,
            before.objective_pareto_front@,
            sets_view(before.program_at_pareto_front_objectives),
        ) ==> best_of_all(
            objectives,
            after.objective_pareto_front@,
            sets_view(after.program_at_pareto_front_objectives),
        ),
{
    assert(after.candidates_view().len() == before.candidates_view().len());
    assert(after.candidates_view()[i] == before.candidates_view()[i]);
    assert(after.subscores_view().len() == before.subscores_view().len());
    assert(after.subscores_view()[i] == before.subscores_view()[i]);
    before.pareto_front_valset.lemma_same_entries(&after.pareto_front_valset);
    before.objective_pareto_front.lemma_same_entries(&after.objective_pareto_front);
}

/// A version is the number that was saved; a greater number is never a smaller
/// version, and a missing one is 0.
pub proof fn versions_are_the_numbers_saved(n: u64, m: u64)
    ensures
        version_of(None) == 0,
        n <= u32::MAX ==> version_of(Some(n)) == n,
        n <= m ==> version_of(Some(n)) <= version_of(Some(m)),
{
}

/// Maps with the same entries hold the same.
pub proof fn same_entries_hold_the_same<Id: DataId>(
    a: crate::keyed::KeyMap<Id, Score>,
    b: crate::keyed::KeyMap<Id, Score>,
)
    requires
        same_entries(a, b),
    ensures
        a@ == b@,
{
    a.lemma_same_entries(&b);
}

/// A result has the candidates of the state, each with its parents, its mean score
/// and the evaluations that had been made when it was found.
pub proof fn a_result_has_what_the_state_has<Id: DataId>(
    result: GEPAResult<Id>,
    state: GEPAState<Id>,
    i: int,
)
    requires
        result.snapshot_of(state),
        state.aligned(),
        0 <= i < state.program_candidates@.len(),
    ensures
        result.candidates@.len() == state.program_candidates@.len(),
        candidate_entries(result.candidates@[i]) == candidate_entries(
            state.program_candidates@[i],
        ),
        result.parents@[i]@ == state.parent_program_for_candidate@[i]@,
        result.val_aggregate_scores@[i] == state.mean_of(i),
        result.val_subscores@[i]@ == state.prog_candidate_val_subscores@[i]@,
        result.discovery_eval_counts@[i] == state.num_metric_calls_by_discovery@[i],
        sets_view(result.per_val_instance_best_candidates) == sets_view(
            state.program_at_pareto_front_valset,
        ),
        result.total_metric_calls == Some(state.total_num_evals),
        result.num_full_val_evals == Some(state.num_full_ds_evals),
{
    assert(same_entries(result.val_subscores@[i], state.prog_candidate_val_subscores@[i]));
    result.val_subscores@[i].lemma_same_entries(&state.prog_candidate_val_subscores@[i]);
}

/// A mutation goes on to be tried just where there is a new text and the candidate
/// has every component that is to change; the candidate that is tried has the new
/// texts, and the others as they were.
pub proof fn a_mutation_is_tried_with_its_new_texts<Id: DataId, S, C, B, A>(
    before: Run<Id, S, C, B, A>,
    after: Run<Id, S, C, B, A>,
    trial: Trial<Id>,
    scores: Vec<Score>,
    texts: Seq<(Seq<char>, Seq<char>)>,
    r: Result<Option<Score>>,
    name: Seq<char>,
)
    requires
        retexted(before, after, trial, scores, texts, r),
        distinct_names(texts),
    ensures
        ({
            let entries = candidate_entries(trial.candidate);
            let known = forall|i: int|
                0 <= i < texts.len() ==> component_text(entries, (#[trigger] texts[i]).0) is Some;
            &&& after.phase is TryingMutation ==> texts.len() > 0 && known
            &&& texts.len() > 0 && known ==> after.phase is TryingMutation
            &&& texts.len() == 0 ==> after.phase is Idle
            &&& texts.len() > 0 && !known ==> r is Err && after.phase is Over
            &&& after.phase matches Phase::TryingMutation { trial: t, scores: s, candidate } ==> {
                let new = candidate_entries(candidate);
                &&& t == trial
                &&& s == scores
                &&& forall|i: int|
                    0 <= i < texts.len() && (#[trigger] texts[i]).0 == name ==> component_text(
                        new,
                        name,
                    ) == Some(texts[i].1)
                &&& (forall|i: int| 0 <= i < texts.len() ==> (#[trigger] texts[i]).0 != name)
                    ==> component_text(new, name) == component_text(entries, name)
            }
        }),
{
    let entries = candidate_entries(trial.candidate);
    unknown_components_are_found(texts, entries, 0);
    match first_unknown(texts, entries, 0) {
        Some(k) => {
            no_text_without_a_name(entries, texts[k].0);
        },
        None => {
            assert forall|i: int| 0 <= i < texts.len() implies entry_position(
                entries,
                (#[trigger] texts[i]).0,
            ) is Some by {
                assert(component_text(entries, texts[i].0) is Some);
            }
            mutation_changes_only_its_texts(entries, texts, texts.len() as int, name);
        },
    }
}

/// A result that is read back has the candidates, parents, scores and counts of the
/// one that was saved.
pub proof fn a_result_comes_back_as_it_was<Id: DataId>(
    before: GEPAResult<Id>,
    after: GEPAResult<Id>,
    i: int,
)
    requires
        same_result(before, after),
        0 <= i < before.candidates@.len(),
        before.parents@.len() == before.candidates@.len(),
        before.val_subscores@.len() == before.candidates@.len(),
    ensures
        after.candidates@.len() == before.candidates@.len(),
        candidate_entries(after.candidates@[i]) == candidate_entries(before.candidates@[i]),
        after.parents@[i]@ == before.parents@[i]@,
        after.val_aggregate_scores@ == before.val_aggregate_scores@,
        after.val_subscores@[i]@ == before.val_subscores@[i]@,
        sets_view(after.per_val_instance_best_candidates) == sets_view(
            before.per_val_instance_best_candidates,
        ),
        after.discovery_eval_counts@ == before.discovery_eval_counts@,
        after.total_metric_calls == before.total_metric_calls,
        after.num_full_val_evals == before.num_full_val_evals,
        after.seed == before.seed,
        after.best_outputs_valset is Some <==> before.best_outputs_valset is Some,
        after.objective_pareto_front is Some <==> before.objective_pareto_front is Some,
{
}

/// A new state has the seed as its only candidate, without parents, and nothing is
/// counted yet.
pub proof fn a_new_state_starts_at_zero<Id: DataId>(
    state: GEPAState<Id>,
    entries: Seq<(Seq<char>, Seq<char>)>,
    evaluation: ValsetEvaluation<Id>,
    frontier_type: FrontierType,
    track_best_outputs: bool,
    i: int,
)
    requires
        state.seeded_by(entries, evaluation, frontier_type, track_best_outputs),
        0 <= i < entries.len(),
    ensures
        state.program_candidates@.len() == 1,
        candidate_entries(state.program_candidates@[0]) == entries,
        state.parent_program_for_candidate@[0]@ == seq![None::<usize>],
        state.mean_scores() == seq![evaluation.mean_score],
        state.prog_candidate_val_subscores@[0]@ == evaluation.scores_by_val_id@,
        state.total_num_evals == 0,
        state.num_full_ds_evals == 0,
        state.num_metric_calls_by_discovery@ == seq![0usize],
        state.named_predictor_id_to_update_next@ == seq![0usize],
        state.i == usize::MAX,
        state.full_program_trace@.len() == 0,
        state.list_of_named_predictors@.len() == entries.len(),
        state.list_of_named_predictors@[i]@ == entries[i].0,
        state.frontier_type == frontier_type,
        state.validation_schema_version == 4,
        state.best_outputs_valset is Some <==> track_best_outputs,
        state.best_outputs_valset matches Some(best) ==> forall|k: Id::V|
            (#[trigger] best@.dom().contains(k) <==> evaluation.outputs_by_val_id@.dom().contains(
                k,
            )) && (best@.dom().contains(k) ==> best@[k] == (
                0usize,
                evaluation.outputs_by_val_id@[k],
            )),
{
    assert(state.candidates_view().len() == 1);
    assert(state.candidates_view()[0] == entries);
    assert(state.subscores_view()[0] == evaluation.scores_by_val_id@);
    assert(state.mean_scores() =~= seq![evaluation.mean_score]);
    let names = text_views(state.list_of_named_predictors@);
    assert(names.len() == component_names(entries).len());
    assert(names[i] == component_names(entries)[i]);
}

/// A run has a cache just where one is wanted; one that is there is kept, a new one
/// is empty, and nothing else changes.
pub proof fn a_cache_is_there_where_wanted<Id: DataId>(
    before: GEPAState<Id>,
    after: GEPAState<Id>,
    wanted: bool,
)
    requires
        cache_synced(before, after, wanted),
    ensures
        after.evaluation_cache is Some <==> wanted,
        wanted && before.evaluation_cache is Some ==> after.evaluation_cache->0
            == before.evaluation_cache->0,
        wanted && before.evaluation_cache is None ==> after.evaluation_cache->0@.dom()
            =~= Set::empty(),
        after.program_candidates == before.program_candidates,
        after.total_num_evals == before.total_num_evals,
        after.i == before.i,
{
}

/// The versions in which results and states are saved.
pub proof fn versions_that_are_written<Id: DataId>(state: GEPAState<Id>, result: GEPAResult<Id>)
    requires
        result.snapshot_of(state),
    ensures
        result.validation_schema_version == 2,
        GEPAState::<Id>::SCHEMA_VERSION == 4,
{
}

} // verus!
