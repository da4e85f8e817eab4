//! What holds of every state of a run, and of the cache.
use serde_json::Value;
use vstd::prelude::*;

use crate::optimizer::adapter::EvaluationBatch;
use crate::optimizer::cache::{
    batch_entry, cache_key, fingerprint, misses, row_views, stored, CachedView,
};
use crate::optimizer::cached_eval::{hits, outputs_of, rows_in, scores_of};
use crate::optimizer::data_loader::DataId;
use crate::optimizer::evaluation::{zipped, ValsetEvaluation};
use crate::optimizer::frontier::FrontierType;
use crate::optimizer::fronts::{
    all_finite, front_exact, joined, raised_front_is_exact, seed_front_is_exact, sets_view,
};
use crate::optimizer::full_eval::{
    built_from, first_gap, merge_fault, merged_outputs, merged_rows, merged_scores,
    FullValsetEvaluation,
};
use crate::optimizer::state::{cartesian_seed, programs_below, GEPAState};
use crate::optimizer::engine::cache_synced;
use crate::score::{averages_to, lowest, Score, ScoreArithmetic};

verus! {

/// A new state is consistent, and its fronts are those of the seed.
pub proof fn new_state_is_consistent<Id: DataId>(
    state: GEPAState<Id>,
    entries: Seq<(Seq<char>, Seq<char>)>,
    evaluation: ValsetEvaluation<Id>,
    frontier_type: FrontierType,
    track_best_outputs: bool,
)
    requires
        state.seeded_by(entries, evaluation, frontier_type, track_best_outputs),
        all_finite(evaluation.scores_by_val_id@),
        all_finite(evaluation.mean_objectives@),
    ensures
        state.consistent(),
        state.parents_precede(),
        state.fronts_in_range(),
        front_exact(
            state.subscores_view(),
            state.pareto_front_valset@,
            sets_view(state.program_at_pareto_front_valset),
        ),
        front_exact(
            state.objectives_seq(),
            state.objective_pareto_front@,
            sets_view(state.program_at_pareto_front_objectives),
        ),
{
    seed_front_is_exact(
        evaluation.scores_by_val_id@,
        sets_view(state.program_at_pareto_front_valset),
    );
    seed_front_is_exact(
        evaluation.mean_objectives@,
        sets_view(state.program_at_pareto_front_objectives),
    );
    assert(state.candidates_view().len() == 1);
    let objective_sets = sets_view(state.program_at_pareto_front_objectives);
    let pair_sets = sets_view(state.program_at_pareto_front_cartesian);
    let sets = sets_view(state.program_at_pareto_front_valset);
    assert forall|k: Id::V, p: usize| sets.dom().contains(k) && #[trigger] sets[k].contains(
        p,
    ) implies p < state.program_candidates@.len() by {
        assert(sets[k] == Set::<usize>::empty().insert(0));
    }
    assert forall|k: Seq<char>, p: usize|
        objective_sets.dom().contains(k) && #[trigger] objective_sets[k].contains(p) implies p
        < state.program_candidates@.len() by {
        assert(objective_sets[k] == Set::<usize>::empty().insert(0));
    }
    assert forall|k: (Id::V, Seq<char>), p: usize|
        pair_sets.dom().contains(k) && #[trigger] pair_sets[k].contains(p) implies p
        < state.program_candidates@.len() by {
        assert(pair_sets[k] == Set::<usize>::empty().insert(0));
    }
    assert forall|i: int, j: int|
        0 <= i < state.parent_program_for_candidate@.len() && 0 <= j
            < state.parent_program_for_candidate@[i]@.len() implies (
    #[trigger] state.parent_program_for_candidate@[i]@[j] matches Some(p) ==> p < i) by {
        assert(state.parent_program_for_candidate@[0]@ == seq![None::<usize>]);
    }
}

/// Joining a program to the fronts keeps their programs in range.
proof fn lemma_joined_in_range<K>(
    front: Map<K, Score>,
    sets: Map<K, Set<usize>>,
    new: Map<K, Score>,
    p: usize,
)
    requires
        programs_below(sets, p as nat),
    ensures
        programs_below(joined(front, sets, new, p), (p + 1) as nat),
{
    let after = joined(front, sets, new, p);
    assert forall|k: K, q: usize| after.dom().contains(k) && #[trigger] after[k].contains(
        q,
    ) implies q < p + 1 by {
        if sets.dom().contains(k) && sets[k].contains(q) {
        } else {
            assert(q == p);
        }
    }
}

/// Adding a candidate keeps one entry for each candidate in every list, parents
/// before their children, and the programs on the fronts in range, whatever the
/// scores are.
pub proof fn added_candidate_keeps_the_shape<Id: DataId>(
    before: GEPAState<Id>,
    after: GEPAState<Id>,
    parents: Seq<usize>,
    entries: Seq<(Seq<char>, Seq<char>)>,
    evaluation: ValsetEvaluation<Id>,
    calls: usize,
)
    requires
        before.aligned(),
        before.parents_precede(),
        before.fronts_in_range(),
        forall|i: int|
            0 <= i < parents.len() ==> (#[trigger] parents[i]) < before.program_candidates@.len(),
        after.extended(before, parents, entries, evaluation, calls),
    ensures
        after.aligned(),
        after.parents_precede(),
        after.fronts_in_range(),
        after.program_candidates@.len() == before.program_candidates@.len() + 1,
{
    let n = before.program_candidates@.len();
    let p = before.program_candidates.len();
    assert(p == n);
    assert(after.candidates_view().len() == n + 1);
    assert(after.subscores_view().len() == n + 1);
    assert(after.objectives_seq().len() == n + 1);
    lemma_joined_in_range(
        before.pareto_front_valset@,
        sets_view(before.program_at_pareto_front_valset),
        evaluation.scores_by_val_id@,
        p,
    );
    lemma_joined_in_range(
        before.objective_pareto_front@,
        sets_view(before.program_at_pareto_front_objectives),
        evaluation.mean_objectives@,
        p,
    );
    lemma_joined_in_range(
        before.pareto_front_cartesian@,
        sets_view(before.program_at_pareto_front_cartesian),
        cartesian_seed(evaluation, before.frontier_type),
        p,
    );
    let lists = after.parent_program_for_candidate@;
    assert forall|i: int, j: int| 0 <= i < lists.len() && 0 <= j < lists[i]@.len() implies (
    #[trigger] lists[i]@[j] matches Some(q) ==> q < i) by {
        if i < n {
            assert(lists.drop_last()[i] == lists[i]);
            assert(before.parent_program_for_candidate@[i]@[j] == lists[i]@[j]);
        } else {
            assert(lists.last()@[j] == Some(parents[j]));
        }
    }
}

/// Adding a candidate with finite scores keeps the state consistent, keeps
/// parents before their children, and keeps the fronts those of all candidates.
pub proof fn added_candidate_keeps_state_consistent<Id: DataId>(
    before: GEPAState<Id>,
    after: GEPAState<Id>,
    parents: Seq<usize>,
    entries: Seq<(Seq<char>, Seq<char>)>,
    evaluation: ValsetEvaluation<Id>,
    calls: usize,
)
    requires
        before.consistent(),
        before.parents_precede(),
        before.fronts_in_range(),
        front_exact(
            before.subscores_view(),
            before.pareto_front_valset@,
            sets_view(before.program_at_pareto_front_valset),
        ),
        front_exact(
            before.objectives_seq(),
            before.objective_pareto_front@,
            sets_view(before.program_at_pareto_front_objectives),
        ),
        all_finite(evaluation.scores_by_val_id@),
        all_finite(evaluation.mean_objectives@),
        forall|i: int|
            0 <= i < parents.len() ==> (#[trigger] parents[i]) < before.program_candidates@.len(),
        after.extended(before, parents, entries, evaluation, calls),
    ensures
        after.consistent(),
        after.parents_precede(),
        after.fronts_in_range(),
        front_exact(
            after.subscores_view(),
            after.pareto_front_valset@,
            sets_view(after.program_at_pareto_front_valset),
        ),
        front_exact(
            after.objectives_seq(),
            after.objective_pareto_front@,
            sets_view(after.program_at_pareto_front_objectives),
        ),
{
    let n = before.program_candidates@.len();
    let p = before.program_candidates.len();
    assert(p == n);
    raised_front_is_exact(
        before.subscores_view(),
        before.pareto_front_valset@,
        sets_view(before.program_at_pareto_front_valset),
        evaluation.scores_by_val_id@,
        p,
    );
    raised_front_is_exact(
        before.objectives_seq(),
        before.objective_pareto_front@,
        sets_view(before.program_at_pareto_front_objectives),
        evaluation.mean_objectives@,
        p,
    );
    added_candidate_keeps_the_shape(before, after, parents, entries, evaluation, calls);
    let sets = sets_view(after.program_at_pareto_front_valset);
    assert(after.pareto_front_valset@.dom() =~= sets.dom()) by {
        assert forall|k: Id::V| after.pareto_front_valset@.dom().contains(k) == sets.dom().contains(
            k,
        ) by {
            assert(sets.dom().contains(k) <==> after.pareto_front_valset@.dom().contains(k));
        }
    }
}

/// What was stored for an example is found under its key, unless a later
/// example of the batch has the same key.
pub proof fn stored_result_is_found<Id: DataId>(
    cache: Map<Seq<char>, CachedView>,
    entries: Seq<(Seq<char>, Seq<char>)>,
    ids: Seq<Id::V>,
    outputs: Seq<Value>,
    scores: Seq<Score>,
    rows: Option<Seq<Map<Seq<char>, Score>>>,
    n: int,
    i: int,
)
    requires
        0 <= i < n <= ids.len(),
        forall|j: int|
            i < j < n ==> cache_key(entries, Id::json_spec(#[trigger] ids[j])) != cache_key(
                entries,
                Id::json_spec(ids[i]),
            ),
    ensures
        stored::<Id>(cache, entries, ids, outputs, scores, rows, n).dom().contains(
            cache_key(entries, Id::json_spec(ids[i])),
        ),
        stored::<Id>(cache, entries, ids, outputs, scores, rows, n)[cache_key(
            entries,
            Id::json_spec(ids[i]),
        )] == batch_entry(outputs, scores, rows, i),
    decreases n,
{
    if i < n - 1 {
        stored_result_is_found::<Id>(cache, entries, ids, outputs, scores, rows, n - 1, i);
        assert(cache_key(entries, Id::json_spec(ids[n - 1])) != cache_key(
            entries,
            Id::json_spec(ids[i]),
        ));
    }
}

proof fn lemma_stored_covers<Id: DataId>(
    cache: Map<Seq<char>, CachedView>,
    entries: Seq<(Seq<char>, Seq<char>)>,
    ids: Seq<Id::V>,
    outputs: Seq<Value>,
    scores: Seq<Score>,
    rows: Option<Seq<Map<Seq<char>, Score>>>,
    n: int,
    key: Seq<char>,
)
    requires
        0 <= n <= ids.len(),
    ensures
        stored::<Id>(cache, entries, ids, outputs, scores, rows, n).dom().contains(key)
            <==> cache.dom().contains(key) || exists|i: int|
            0 <= i < n && cache_key(entries, Id::json_spec(#[trigger] ids[i])) == key,
    decreases n,
{
    if n > 0 {
        lemma_stored_covers::<Id>(cache, entries, ids, outputs, scores, rows, n - 1, key);
        if cache_key(entries, Id::json_spec(ids[n - 1])) == key {
            assert(0 <= n - 1 < n && cache_key(entries, Id::json_spec(ids[n - 1])) == key);
        }
    }
}

proof fn lemma_no_misses<Id: DataId>(
    cache: Map<Seq<char>, CachedView>,
    entries: Seq<(Seq<char>, Seq<char>)>,
    ids: Seq<Id::V>,
    n: int,
)
    requires
        0 <= n <= ids.len(),
        forall|i: int|
            0 <= i < n ==> cache.dom().contains(
                cache_key(entries, Id::json_spec(#[trigger] ids[i])),
            ),
    ensures
        misses::<Id>(cache, entries, ids, n).len() == 0,
    decreases n,
{
    if n > 0 {
        lemma_no_misses::<Id>(cache, entries, ids, n - 1);
    }
}

/// Whatever was missing is among the missing examples.
proof fn lemma_misses_complete<Id: DataId>(
    cache: Map<Seq<char>, CachedView>,
    entries: Seq<(Seq<char>, Seq<char>)>,
    ids: Seq<Id::V>,
    n: int,
    i: int,
)
    requires
        0 <= i < n <= ids.len(),
        !cache.dom().contains(cache_key(entries, Id::json_spec(ids[i]))),
    ensures
        misses::<Id>(cache, entries, ids, n).contains(ids[i]),
    decreases n,
{
    let before = misses::<Id>(cache, entries, ids, n - 1);
    if i == n - 1 {
        assert(before.push(ids[i])[before.len() as int] == ids[i]);
    } else {
        lemma_misses_complete::<Id>(cache, entries, ids, n - 1, i);
        let k = choose|k: int| 0 <= k < before.len() && before[k] == ids[i];
        if !cache.dom().contains(cache_key(entries, Id::json_spec(ids[n - 1]))) {
            assert(before.push(ids[n - 1])[k] == ids[i]);
        }
    }
}

/// Once the results of the examples that a cache lacks are stored in it, it
/// lacks none: a second evaluation of the same candidate on the same examples
/// evaluates nothing.
pub proof fn second_evaluation_misses_nothing<Id: DataId>(
    cache: Map<Seq<char>, CachedView>,
    entries: Seq<(Seq<char>, Seq<char>)>,
    ids: Seq<Id::V>,
    outputs: Seq<Value>,
    scores: Seq<Score>,
    rows: Option<Seq<Map<Seq<char>, Score>>>,
)
    ensures
        ({
            let missing = misses::<Id>(cache, entries, ids, ids.len() as int);
            misses::<Id>(
                stored::<Id>(
                    cache,
                    entries,
                    missing,
                    outputs,
                    scores,
                    rows,
                    missing.len() as int,
                ),
                entries,
                ids,
                ids.len() as int,
            ).len() == 0
        }),
{
    let n = ids.len() as int;
    let missing = misses::<Id>(cache, entries, ids, n);
    let after = stored::<Id>(cache, entries, missing, outputs, scores, rows, missing.len() as int);
    assert forall|i: int| 0 <= i < n implies after.dom().contains(
        cache_key(entries, Id::json_spec(#[trigger] ids[i])),
    ) by {
        let key = cache_key(entries, Id::json_spec(ids[i]));
        lemma_stored_covers::<Id>(
            cache,
            entries,
            missing,
            outputs,
            scores,
            rows,
            missing.len() as int,
            key,
        );
        if !cache.dom().contains(key) {
            lemma_misses_complete::<Id>(cache, entries, ids, n, i);
            let k = choose|k: int| 0 <= k < missing.len() && missing[k] == ids[i];
            assert(cache_key(entries, Id::json_spec(missing[k])) == key);
        }
    }
    lemma_no_misses::<Id>(after, entries, ids, n);
}

/// An example that the cache has a result for is not evaluated.
pub proof fn hits_are_not_evaluated<Id: DataId>(
    cache: Map<Seq<char>, CachedView>,
    entries: Seq<(Seq<char>, Seq<char>)>,
    ids: Seq<Id::V>,
    n: int,
    id: Id::V,
)
    requires
        0 <= n <= ids.len(),
        cache.dom().contains(cache_key(entries, Id::json_spec(id))),
    ensures
        !misses::<Id>(cache, entries, ids, n).contains(id),
    decreases n,
{
    if n > 0 {
        hits_are_not_evaluated::<Id>(cache, entries, ids, n - 1, id);
        let before = misses::<Id>(cache, entries, ids, n - 1);
        let more = before.push(ids[n - 1]);
        if more.contains(id) && !cache.dom().contains(
            cache_key(entries, Id::json_spec(ids[n - 1])),
        ) {
            let k = choose|k: int| 0 <= k < more.len() && more[k] == id;
            if k < before.len() {
                assert(before[k] == id);
            }
        }
    }
}

/// A zipped map has every key.
proof fn lemma_zipped_has<K, V>(keys: Seq<K>, values: Seq<V>, n: int, i: int)
    requires
        0 <= i < n,
    ensures
        zipped(keys, values, n).dom().contains(keys[i]),
    decreases n,
{
    if i < n - 1 {
        lemma_zipped_has(keys, values, n - 1, i);
    }
}

proof fn lemma_no_gap<Id: DataId>(
    ids: Seq<Id::V>,
    outputs: Map<Id::V, Value>,
    scores: Map<Id::V, Score>,
    rows: Option<Map<Id::V, Map<Seq<char>, Score>>>,
    i: int,
)
    requires
        0 <= i <= ids.len(),
        forall|j: int| 0 <= j < ids.len() ==> outputs.dom().contains(#[trigger] ids[j]),
        forall|j: int| 0 <= j < ids.len() ==> scores.dom().contains(#[trigger] ids[j]),
        rows matches Some(m) ==> forall|j: int|
            0 <= j < ids.len() ==> m.dom().contains(#[trigger] ids[j]),
    ensures
        first_gap::<Id>(ids, outputs, scores, rows, i) is None,
    decreases ids.len() - i,
{
    if i < ids.len() {
        lemma_no_gap::<Id>(ids, outputs, scores, rows, i + 1);
    }
}

/// The results that the cache has and those of a valid batch for the examples
/// that it lacks are the results of all examples: nothing is missing, as long as
/// all results have objective scores or none has.
pub proof fn cached_and_fresh_results_are_complete<Id: DataId, T>(
    cache: Map<Seq<char>, CachedView>,
    entries: Seq<(Seq<char>, Seq<char>)>,
    ids: Seq<Id::V>,
    batch: EvaluationBatch<T, Value>,
    fresh: FullValsetEvaluation<Id>,
    with_objectives: bool,
)
    requires
        ({
            let missing = misses::<Id>(cache, entries, ids, ids.len() as int);
            let found = hits::<Id>(cache, entries, ids);
            &&& built_from(fresh, missing, batch, missing.len() as usize)
            &&& batch.objective_scores is Some == with_objectives
            &&& forall|id: Id::V| #[trigger]
                found.dom().contains(id) ==> found[id].objectives is Some == with_objectives
        }),
    ensures
        ({
            let missing = misses::<Id>(cache, entries, ids, ids.len() as int);
            let found = hits::<Id>(cache, entries, ids);
            merge_fault(ids, found, missing, Some(fresh)) is None
        }),
{
    let n = ids.len() as int;
    let missing = misses::<Id>(cache, entries, ids, n);
    let found = hits::<Id>(cache, entries, ids);
    let m = missing.len() as int;
    let outputs = merged_outputs(found, Some(fresh));
    let scores = merged_scores(found, Some(fresh));
    let rows = merged_rows(found, Some(fresh));
    assert forall|j: int| 0 <= j < n implies outputs.dom().contains(#[trigger] ids[j])
        && scores.dom().contains(ids[j]) && (rows matches Some(r) ==> r.dom().contains(
        ids[j],
    )) by {
        let id = ids[j];
        if cache.dom().contains(cache_key(entries, Id::json_spec(id))) {
            assert(found.dom().contains(id));
            assert(outputs_of(found).dom().contains(id));
            assert(scores_of(found).dom().contains(id));
            if with_objectives {
                assert(found[id].objectives is Some);
                assert(rows_in(found) is Some);
                assert(rows_in(found)->0.dom().contains(id));
            }
        } else {
            lemma_misses_complete::<Id>(cache, entries, ids, n, j);
            let k = choose|k: int| 0 <= k < m && missing[k] == id;
            lemma_zipped_has(missing, batch.outputs@, m, k);
            lemma_zipped_has(missing, batch.scores@, m, k);
            if with_objectives {
                lemma_zipped_has(missing, row_views(batch.objective_scores->0@), m, k);
            }
        }
        if !with_objectives {
            assert(rows_in(found) is None);
        }
    }
    lemma_no_gap::<Id>(ids, outputs, scores, rows, 0);
}

/// The results of one candidate on different examples are kept under different
/// keys: storing one leaves the other alone.
pub proof fn examples_are_kept_apart<Id: DataId>(
    cache: Map<Seq<char>, CachedView>,
    entries: Seq<(Seq<char>, Seq<char>)>,
    id: Id::V,
    other: Id::V,
    result: CachedView,
)
    requires
        id != other,
    ensures
        ({
            let key = cache_key(entries, Id::json_spec(other));
            let after = cache.insert(cache_key(entries, Id::json_spec(id)), result);
            &&& after.dom().contains(key) == cache.dom().contains(key)
            &&& cache.dom().contains(key) ==> after[key] == cache[key]
        }),
{
    let prefix = fingerprint(entries) + ":"@;
    let a = Id::json_spec(id);
    let b = Id::json_spec(other);
    if cache_key(entries, a) == cache_key(entries, b) {
        assert((prefix + a).skip(prefix.len() as int) =~= a);
        assert((prefix + b).skip(prefix.len() as int) =~= b);
        Id::json_texts_differ(id, other);
    }
}

/// The mean score that a state gives for a candidate is the mean of the
/// candidate's scores, or negative infinity where there are none.
pub proof fn average_is_the_mean_of_the_scores<Id: DataId, A: ScoreArithmetic>(
    state: GEPAState<Id>,
    arith: A,
    i: int,
)
    requires
        state.means_by(arith),
        0 <= i < state.prog_candidate_val_subscores@.len(),
    ensures
        ({
            let scores = state.prog_candidate_val_subscores@[i].value_seq();
            if scores.len() == 0 {
                state.mean_of(i) == lowest()
            } else {
                averages_to(arith, scores, state.mean_of(i))
            }
        }),
{
}

/// The mean score of a new state is the mean of the seed's scores.
pub proof fn new_state_has_its_mean<Id: DataId, A: ScoreArithmetic>(
    state: GEPAState<Id>,
    entries: Seq<(Seq<char>, Seq<char>)>,
    evaluation: ValsetEvaluation<Id>,
    frontier_type: FrontierType,
    track_best_outputs: bool,
    arith: A,
)
    requires
        state.seeded_by(entries, evaluation, frontier_type, track_best_outputs),
        evaluation.means_by(arith),
    ensures
        state.means_by(arith),
{
}

/// Adding a candidate keeps the mean scores the means of the scores.
pub proof fn added_candidate_keeps_the_means<Id: DataId, A: ScoreArithmetic>(
    before: GEPAState<Id>,
    after: GEPAState<Id>,
    parents: Seq<usize>,
    entries: Seq<(Seq<char>, Seq<char>)>,
    evaluation: ValsetEvaluation<Id>,
    calls: usize,
    arith: A,
)
    requires
        before.means_by(arith),
        evaluation.means_by(arith),
        after.extended(before, parents, entries, evaluation, calls),
    ensures
        after.means_by(arith),
{
    let n = before.prog_candidate_val_subscores@.len();
    assert(after.subscores_view().len() == n + 1);
    assert forall|i: int|
        0 <= i < n + 1 && after.prog_candidate_val_subscores@[i].value_seq().len()
            > 0 implies averages_to(
        arith,
        after.prog_candidate_val_subscores@[i].value_seq(),
        #[trigger] after.prog_candidate_mean_scores@[i],
    ) by {
        if i < n {
            assert(after.prog_candidate_val_subscores@.drop_last()[i]
                == before.prog_candidate_val_subscores@[i]);
            assert(after.prog_candidate_mean_scores@[i] == before.prog_candidate_mean_scores@[i]);
        }
    }
}

/// A run that starts from a state, with whatever budget and cache, has the
/// state's mean scores.
pub proof fn opened_run_keeps_the_means<Id: DataId, A: ScoreArithmetic>(
    before: GEPAState<Id>,
    after: GEPAState<Id>,
    wanted: bool,
    arith: A,
)
    requires
        before.means_by(arith),
        cache_synced(before, after, wanted),
    ensures
        after.means_by(arith),
{
}

} // verus!
