//! How results are put together, looked up and checked.
use serde_json::Value;
use vstd::prelude::*;

use crate::keyed::{mapped, views, MapKey};
use crate::optimizer::adapter::{
    first_not_finite, row_fault, EvaluationBatch, ObjectiveScores,
};
use crate::optimizer::cache::{
    batch_entry, cache_key, entry_le, fingerprint, lemma_entry_le_total, misses, optional_rows,
    row_views, sorted_entries, stored, CachedView,
};
use crate::optimizer::cached_eval::{
    contents, hits, merged_with, more_rows, output_list, row_list, rows_in, scores_on, Evaluated,
};
use crate::optimizer::data_loader::{first_out_of_range, DataId};
use crate::optimizer::engine::{absorbed, FullEvalPlan};
use crate::optimizer::evaluation::{column, means_of, zipped, ValsetEvaluation};
use crate::optimizer::full_eval::{
    built_from, first_gap, merge_fault, merged_from, merged_outputs, merged_rows, merged_scores,
    FullValsetEvaluation,
};
use crate::optimizer::state::GEPAState;
use crate::score::{averages_to, Score, ScoreArithmetic};
use crate::text::text_le;

verus! {

/// A map of keys and values has just the keys; the value of a key is that at the
/// last place at which the key stands.
pub proof fn the_last_value_of_a_key_counts<K, V>(keys: Seq<K>, values: Seq<V>, n: int, i: int)
    requires
        0 <= i < n <= keys.len(),
        n <= values.len(),
        forall|j: int| i < j < n ==> #[trigger] keys[j] != keys[i],
    ensures
        zipped(keys, values, n).dom().contains(keys[i]),
        zipped(keys, values, n)[keys[i]] == values[i],
    decreases n,
{
    if i < n - 1 {
        the_last_value_of_a_key_counts(keys, values, n - 1, i);
        assert(keys[n - 1] != keys[i]);
    }
}

/// A map of keys and values has no other keys.
pub proof fn only_the_keys_have_values<K, V>(keys: Seq<K>, values: Seq<V>, n: int, k: K)
    requires
        0 <= n <= keys.len(),
    ensures
        zipped(keys, values, n).dom().contains(k) <==> keys.take(n).contains(k),
    decreases n,
{
    if n > 0 {
        only_the_keys_have_values(keys, values, n - 1, k);
        let before = keys.take(n - 1);
        let now = keys.take(n);
        if before.contains(k) {
            let i = choose|i: int| 0 <= i < before.len() && before[i] == k;
            assert(now[i] == k);
        }
        if now.contains(k) {
            let i = choose|i: int| 0 <= i < now.len() && now[i] == k;
            if i < n - 1 {
                assert(before[i] == k);
            }
        }
        if k == keys[n - 1] {
            assert(now[n - 1] == k);
        }
    }
}

proof fn lemma_filter_push<T>(s: Seq<T>, x: T, f: spec_fn(T) -> bool)
    ensures
        s.push(x).filter(f) == if f(x) {
            s.filter(f).push(x)
        } else {
            s.filter(f)
        },
{
    reveal(Seq::filter);
    assert(s.push(x).drop_last() =~= s);
}

/// The column of an objective has its score in each row that has one, in order.
pub proof fn column_has_the_scores_of_the_rows(
    rows: Seq<ObjectiveScores>,
    name: Seq<char>,
    n: int,
)
    requires
        0 <= n <= rows.len(),
    ensures
        column(rows, name, n) == rows.take(n).filter(
            |r: ObjectiveScores| r@.dom().contains(name),
        ).map_values(|r: ObjectiveScores| r@[name]),
    decreases n,
{
    let f = |r: ObjectiveScores| r@.dom().contains(name);
    let g = |r: ObjectiveScores| r@[name];
    if n > 0 {
        column_has_the_scores_of_the_rows(rows, name, n - 1);
        let before = rows.take(n - 1);
        assert(rows.take(n) =~= before.push(rows[n - 1]));
        lemma_filter_push(before, rows[n - 1], f);
        assert(column(rows, name, n) =~= rows.take(n).filter(f).map_values(g));
    } else {
        reveal(Seq::filter);
        assert(rows.take(0).filter(f) =~= seq![]);
        assert(column(rows, name, n) =~= rows.take(n).filter(f).map_values(g));
    }
}

/// The examples that the cache lacks are those without an entry, in order.
pub proof fn misses_are_those_without_an_entry<Id: DataId>(
    cache: Map<Seq<char>, CachedView>,
    entries: Seq<(Seq<char>, Seq<char>)>,
    ids: Seq<Id::V>,
    n: int,
)
    requires
        0 <= n <= ids.len(),
    ensures
        misses::<Id>(cache, entries, ids, n) == ids.take(n).filter(
            |id: Id::V| !cache.dom().contains(cache_key(entries, Id::json_spec(id))),
        ),
    decreases n,
{
    let f = |id: Id::V| !cache.dom().contains(cache_key(entries, Id::json_spec(id)));
    if n > 0 {
        misses_are_those_without_an_entry::<Id>(cache, entries, ids, n - 1);
        let before = ids.take(n - 1);
        assert(ids.take(n) =~= before.push(ids[n - 1]));
        lemma_filter_push(before, ids[n - 1], f);
    } else {
        reveal(Seq::filter);
        assert(ids.take(0).filter(f) =~= seq![]);
    }
}

/// The cache gives back, for each example asked for that has an entry, the entry
/// under the candidate's fingerprint and the example.
pub proof fn hits_are_the_entries<Id: DataId>(
    cache: Map<Seq<char>, CachedView>,
    entries: Seq<(Seq<char>, Seq<char>)>,
    ids: Seq<Id::V>,
    id: Id::V,
)
    ensures
        hits::<Id>(cache, entries, ids).dom().contains(id) <==> ids.contains(id)
            && cache.dom().contains(cache_key(entries, Id::json_spec(id))),
        hits::<Id>(cache, entries, ids).dom().contains(id) ==> hits::<Id>(cache, entries, ids)[id]
            == cache[cache_key(entries, Id::json_spec(id))],
{
    if ids.contains(id) {
        let i = choose|i: int| 0 <= i < ids.len() && ids[i] == id;
        assert(ids[i] == id);
    }
}

/// A key of the cache tells apart the candidate's fingerprint and the example.
pub proof fn keys_of_one_candidate_differ_by_the_example(
    entries: Seq<(Seq<char>, Seq<char>)>,
    a: Seq<char>,
    b: Seq<char>,
)
    requires
        cache_key(entries, a) == cache_key(entries, b),
    ensures
        a == b,
{
    let head = crate::optimizer::cache::fingerprint(entries) + ":"@;
    assert(cache_key(entries, a).skip(head.len() as int) =~= a);
    assert(cache_key(entries, b).skip(head.len() as int) =~= b);
}

/// What is stored for an example is its output, its score and its row.
pub proof fn an_entry_is_of_its_place(
    outputs: Seq<Value>,
    scores: Seq<Score>,
    rows: Seq<Map<Seq<char>, Score>>,
    i: int,
)
    ensures
        batch_entry(outputs, scores, Some(rows), i).output == outputs[i],
        batch_entry(outputs, scores, Some(rows), i).score == scores[i],
        i < rows.len() ==> batch_entry(outputs, scores, Some(rows), i).objectives == Some(rows[i]),
        batch_entry(outputs, scores, None, i).objectives is None,
{
}

/// Scores, outputs and rows on a list of examples are those of the examples, in
/// the order of the list.
pub proof fn lists_are_in_the_order_of_the_examples<K>(
    outputs: Map<K, Value>,
    scores: Map<K, Score>,
    rows: Map<K, Map<Seq<char>, Score>>,
    ids: Seq<K>,
    i: int,
)
    requires
        0 <= i < ids.len(),
    ensures
        scores_on(scores, ids).len() == ids.len(),
        scores.dom().contains(ids[i]) ==> scores_on(scores, ids)[i] == scores[ids[i]],
        !scores.dom().contains(ids[i]) ==> scores_on(scores, ids)[i].place() == 0,
        output_list(outputs, ids).len() == ids.len(),
        outputs.dom().contains(ids[i]) ==> output_list(outputs, ids)[i] == outputs[ids[i]],
        row_list(Some(rows), ids) matches Some(list) && list.len() == ids.len() && (
        rows.dom().contains(ids[i]) ==> list[i] == rows[ids[i]]),
        row_list::<K>(None, ids) is None,
{
}

/// Cached and fresh results together: the fresh one where there is one, else the
/// cached one, and nothing else.
pub proof fn fresh_results_come_first<Id: DataId>(
    cached: Map<Id::V, CachedView>,
    fresh: FullValsetEvaluation<Id>,
    id: Id::V,
)
    ensures
        ({
            let new_outputs = fresh.valset_evaluation.outputs_by_val_id@;
            let new_scores = fresh.valset_evaluation.scores_by_val_id@;
            let outputs = merged_outputs(cached, Some(fresh));
            let scores = merged_scores(cached, Some(fresh));
            &&& outputs.dom().contains(id) <==> new_outputs.dom().contains(id)
                || cached.dom().contains(id)
            &&& new_outputs.dom().contains(id) ==> outputs[id] == new_outputs[id]
            &&& !new_outputs.dom().contains(id) && cached.dom().contains(id) ==> outputs[id]
                == cached[id].output
            &&& scores.dom().contains(id) <==> new_scores.dom().contains(id)
                || cached.dom().contains(id)
            &&& new_scores.dom().contains(id) ==> scores[id] == new_scores[id]
            &&& !new_scores.dom().contains(id) && cached.dom().contains(id) ==> scores[id]
                == cached[id].score
        }),
        merged_outputs::<Id>(cached, None).dom().contains(id) <==> cached.dom().contains(id),
        cached.dom().contains(id) ==> merged_outputs::<Id>(cached, None)[id] == cached[id].output,
        merged_scores::<Id>(cached, None).dom().contains(id) <==> cached.dom().contains(id),
        cached.dom().contains(id) ==> merged_scores::<Id>(cached, None)[id] == cached[id].score,
{
}

/// The rows of cached results are those of the results that have one.
pub proof fn cached_rows_are_those_there_are<K>(cached: Map<K, CachedView>, k: K)
    ensures
        cached.dom().contains(k) && cached[k].objectives is Some ==> rows_in(cached) is Some,
        rows_in(cached) matches Some(rows) ==> (rows.dom().contains(k) <==> cached.dom().contains(k)
            && cached[k].objectives is Some) && (rows.dom().contains(k) ==> Some(rows[k])
            == cached[k].objectives),
{
}

/// Rows with others added: the others come first.
pub proof fn added_rows_come_first<K>(
    a: Map<K, Map<Seq<char>, Score>>,
    b: Map<K, Map<Seq<char>, Score>>,
    k: K,
)
    ensures
        more_rows(Some(a), Some(b)) matches Some(rows) && (rows.dom().contains(k)
            <==> a.dom().contains(k) || b.dom().contains(k)) && (b.dom().contains(k) ==> rows[k]
            == b[k]) && (a.dom().contains(k) && !b.dom().contains(k) ==> rows[k] == a[k]),
        more_rows(None, Some(b)) == Some(b),
        more_rows(Some(a), None) == Some(a),
        more_rows::<K>(None, None) is None,
{
}

/// Results are without a gap just where every example has an output, a score and,
/// where there are rows, a row.
pub proof fn results_without_a_gap_are_complete<Id: DataId>(
    ids: Seq<Id::V>,
    outputs: Map<Id::V, Value>,
    scores: Map<Id::V, Score>,
    rows: Option<Map<Id::V, Map<Seq<char>, Score>>>,
    i: int,
)
    requires
        0 <= i <= ids.len(),
    ensures
        first_gap::<Id>(ids, outputs, scores, rows, i) is None <==> forall|j: int|
            i <= j < ids.len() ==> outputs.dom().contains(#[trigger] ids[j]) && scores.dom().contains(
                ids[j],
            ) && (rows matches Some(m) ==> m.dom().contains(ids[j])),
    decreases ids.len() - i,
{
    if i < ids.len() {
        results_without_a_gap_are_complete::<Id>(ids, outputs, scores, rows, i + 1);
    }
}

/// Results that are put together without a fault have a result for every example
/// asked for.
pub proof fn merged_results_are_complete<Id: DataId>(
    full: FullValsetEvaluation<Id>,
    ids: Seq<Id::V>,
    cached: Map<Id::V, CachedView>,
    uncached_ids: Seq<Id::V>,
    fresh: Option<FullValsetEvaluation<Id>>,
    i: int,
)
    requires
        merge_fault(ids, cached, uncached_ids, fresh) is None,
        merged_from(full, ids, cached, fresh),
        0 <= i < ids.len(),
    ensures
        full.scores@.len() == ids.len(),
        full.outputs@.len() == ids.len(),
        full.valset_evaluation.scores_by_val_id@.dom().contains(ids[i]),
        full.scores@[i] == full.valset_evaluation.scores_by_val_id@[ids[i]],
        full.outputs@[i] == full.valset_evaluation.outputs_by_val_id@[ids[i]],
        full.metric_evals == match fresh {
            Some(f) => f.metric_evals,
            None => 0,
        },
        fresh is None ==> uncached_ids.len() == 0,
        fresh is Some && fresh->0.valset_evaluation.scores_by_val_id@.dom().contains(ids[i])
            ==> full.scores@[i] == fresh->0.valset_evaluation.scores_by_val_id@[ids[i]],
        (fresh is None || !fresh->0.valset_evaluation.scores_by_val_id@.dom().contains(ids[i]))
            ==> cached.dom().contains(ids[i]) && full.scores@[i] == cached[ids[i]].score,
{
    results_without_a_gap_are_complete::<Id>(
        ids,
        merged_outputs(cached, fresh),
        merged_scores(cached, fresh),
        merged_rows(cached, fresh),
        0,
    );
    if let Some(f) = fresh {
        fresh_results_come_first(cached, f, ids[i]);
    }
}

/// The results of a batch: with distinct examples, each has the output and the
/// score at its place.
pub proof fn results_of_a_batch_are_at_their_places<Id: DataId, T>(
    full: FullValsetEvaluation<Id>,
    ids: Seq<Id::V>,
    batch: EvaluationBatch<T, Value>,
    metric_evals: usize,
    i: int,
)
    requires
        built_from(full, ids, batch, metric_evals),
        ids.no_duplicates(),
        batch.outputs@.len() == ids.len(),
        batch.scores@.len() == ids.len(),
        batch.objective_scores matches Some(rows) ==> rows@.len() == ids.len(),
        0 <= i < ids.len(),
    ensures
        ({
            let e = full.valset_evaluation;
            &&& e.scores_by_val_id@.dom() == ids.to_set()
            &&& e.scores_by_val_id@[ids[i]] == batch.scores@[i]
            &&& e.outputs_by_val_id@[ids[i]] == batch.outputs@[i]
            &&& e.objective_scores_by_val_id is Some <==> batch.objective_scores is Some
            &&& e.objective_scores_by_val_id matches Some(rows) ==> rows@.dom().contains(ids[i])
                && rows@[ids[i]]@ == batch.objective_scores->0@[i]@
        }),
{
    let n = ids.len() as int;
    assert forall|j: int| i < j < n implies #[trigger] ids[j] != ids[i] by {}
    the_last_value_of_a_key_counts(ids, batch.scores@, n, i);
    the_last_value_of_a_key_counts(ids, batch.outputs@, n, i);
    assert forall|k: Id::V| zipped(ids, batch.scores@, n).dom().contains(k) <==> ids.contains(
        k,
    ) by {
        only_the_keys_have_values(ids, batch.scores@, n, k);
        assert(ids.take(n) =~= ids);
    }
    assert(full.valset_evaluation.scores_by_val_id@.dom() =~= ids.to_set());
    if let Some(rows) = batch.objective_scores {
        let v = row_views(rows@);
        the_last_value_of_a_key_counts(ids, v, n, i);
        let m = full.valset_evaluation.objective_scores_by_val_id->0;
        let all = crate::optimizer::cached_eval::rows_view(m);
        assert(all == zipped(ids, v, n));
        assert(all.dom().contains(ids[i]));
        assert(all[ids[i]] == m@[ids[i]]@);
    }
}

/// The first score that is not finite is found, if there is one.
pub proof fn scores_that_are_not_finite_are_found(scores: Seq<Score>, i: int)
    requires
        0 <= i <= scores.len(),
    ensures
        match first_not_finite(scores, i) {
            Some(k) => i <= k < scores.len() && !scores[k].finite() && forall|j: int|
                i <= j < k ==> (#[trigger] scores[j]).finite(),
            None => forall|j: int| i <= j < scores.len() ==> (#[trigger] scores[j]).finite(),
        },
    decreases scores.len() - i,
{
    if i < scores.len() && scores[i].finite() {
        scores_that_are_not_finite_are_found(scores, i + 1);
    }
}

proof fn lemma_rows_are_checked(rows: Seq<ObjectiveScores>, i: int)
    requires
        0 <= i <= rows.len(),
        forall|j: int| 0 <= j < rows.len() ==> (#[trigger] rows[j]).wf(),
    ensures
        row_fault(rows, i) is None <==> forall|j: int, name: Seq<char>|
            i <= j < rows.len() && #[trigger] rows[j]@.dom().contains(name)
                ==> rows[j]@[name].finite(),
    decreases rows.len() - i,
{
    if i < rows.len() {
        lemma_rows_are_checked(rows, i + 1);
        let row = rows[i];
        assert(row.wf());
        scores_that_are_not_finite_are_found(row.value_seq(), 0);
        match first_not_finite(row.value_seq(), 0) {
            Some(k) => {
                row.lemma_entry(k);
                assert(rows[i]@.dom().contains(row.key_seq()[k]));
            },
            None => {
                assert forall|name: Seq<char>| #[trigger] rows[i]@.dom().contains(name) implies
                    rows[i]@[name].finite() by {
                    let k = row.lemma_position(name);
                    assert(row.value_seq()[k].finite());
                }
                assert forall|j: int, name: Seq<char>|
                    i <= j < rows.len() && (forall|j2: int, n2: Seq<char>|
                        i + 1 <= j2 < rows.len() && #[trigger] rows[j2]@.dom().contains(n2)
                            ==> rows[j2]@[n2].finite()) && #[trigger] rows[j]@.dom().contains(
                        name,
                    ) implies rows[j]@[name].finite() by {
                    if j == i {
                        assert(rows[i]@.dom().contains(name));
                    }
                }
            },
        }
    }
}

/// A batch is without a fault just where it has an output, a score and, where
/// there are any, a trajectory and a row for each example, trajectories where
/// they are asked for, and no score that is not finite.
pub proof fn a_sound_batch_is_aligned_and_finite<T, RO>(
    batch: EvaluationBatch<T, RO>,
    expected: nat,
    require_trajectories: bool,
)
    requires
        batch.wf(),
    ensures
        batch.fault(expected, require_trajectories) is None <==> {
            &&& batch.outputs@.len() == expected
            &&& batch.scores@.len() == expected
            &&& forall|i: int| 0 <= i < expected ==> (#[trigger] batch.scores@[i]).finite()
            &&& batch.trajectories matches Some(t) ==> t@.len() == expected
            &&& require_trajectories ==> batch.trajectories is Some
            &&& batch.objective_scores matches Some(rows) ==> rows@.len() == expected
                && forall|i: int, name: Seq<char>|
                0 <= i < expected && #[trigger] rows@[i]@.dom().contains(name)
                    ==> rows@[i]@[name].finite()
        },
{
    scores_that_are_not_finite_are_found(batch.scores@, 0);
    if let Some(rows) = batch.objective_scores {
        lemma_rows_are_checked(rows@, 0);
    }
}

/// The first index out of range is found, if there is one.
pub proof fn an_index_out_of_range_is_found(ids: Seq<usize>, n: nat, i: int)
    requires
        0 <= i <= ids.len(),
    ensures
        match first_out_of_range(ids, n, i) {
            Some(k) => i <= k < ids.len() && ids[k] >= n && forall|j: int|
                i <= j < k ==> (#[trigger] ids[j]) < n,
            None => forall|j: int| i <= j < ids.len() ==> (#[trigger] ids[j]) < n,
        },
    decreases ids.len() - i,
{
    if i < ids.len() && ids[i] < n {
        an_index_out_of_range_is_found(ids, n, i + 1);
    }
}

/// Components are ordered by their names, and by their texts where the names are
/// the same.
pub proof fn components_are_ordered_by_name(
    a: (Seq<char>, Seq<char>),
    b: (Seq<char>, Seq<char>),
)
    ensures
        a.0 != b.0 ==> (entry_le(a, b) <==> text_le(a.0, b.0)),
        a.0 == b.0 ==> (entry_le(a, b) <==> text_le(a.1, b.1)),
{
}

/// Sorting keeps the components and puts none before one that comes before it.
pub proof fn sorting_orders_the_components(entries: Seq<(Seq<char>, Seq<char>)>)
    ensures
        sorted_entries(entries).to_multiset() == entries.to_multiset(),
        forall|i: int, j: int|
            0 <= i < j < sorted_entries(entries).len() ==> entry_le(
                #[trigger] sorted_entries(entries)[i],
                #[trigger] sorted_entries(entries)[j],
            ),
{
    let leq = |a: (Seq<char>, Seq<char>), b: (Seq<char>, Seq<char>)| entry_le(a, b);
    lemma_entry_le_total();
    entries.lemma_sort_by_ensures(leq);
    assert forall|i: int, j: int| 0 <= i < j < sorted_entries(entries).len() implies entry_le(
        #[trigger] sorted_entries(entries)[i],
        #[trigger] sorted_entries(entries)[j],
    ) by {
        assert(leq(sorted_entries(entries)[i], sorted_entries(entries)[j]));
    }
}

/// The results of an evaluation with the help of a cache: the fresh one where there
/// is one, else the cached one, and nothing else.
pub proof fn an_evaluation_prefers_fresh_results<Id: DataId>(
    evaluation: ValsetEvaluation<Id>,
    cached: Map<Id::V, CachedView>,
    fresh: Evaluated<Id>,
    id: Id::V,
)
    requires
        merged_with(evaluation, cached, fresh),
    ensures
        ({
            let scores = evaluation.scores_by_val_id@;
            let outputs = evaluation.outputs_by_val_id@;
            &&& scores.dom().contains(id) <==> fresh.1@.dom().contains(id)
                || cached.dom().contains(id)
            &&& fresh.1@.dom().contains(id) ==> scores[id] == fresh.1@[id]
            &&& !fresh.1@.dom().contains(id) && cached.dom().contains(id) ==> scores[id]
                == cached[id].score
            &&& outputs.dom().contains(id) <==> fresh.0@.dom().contains(id)
                || cached.dom().contains(id)
            &&& fresh.0@.dom().contains(id) ==> outputs[id] == fresh.0@[id]
            &&& !fresh.0@.dom().contains(id) && cached.dom().contains(id) ==> outputs[id]
                == cached[id].output
        }),
{
}

/// The map of a list of pairs has for each key the value that was listed last.
pub proof fn the_last_pair_of_a_key_counts<K: MapKey, V>(pairs: Seq<(K, V)>, n: int, i: int)
    requires
        0 <= i < n <= pairs.len(),
        forall|j: int| i < j < n ==> (#[trigger] pairs[j]).0@ != pairs[i].0@,
    ensures
        mapped(pairs, n).dom().contains(pairs[i].0@),
        mapped(pairs, n)[pairs[i].0@] == pairs[i].1,
    decreases n,
{
    if i < n - 1 {
        the_last_pair_of_a_key_counts(pairs, n - 1, i);
        assert(pairs[n - 1].0@ != pairs[i].0@);
    }
}

/// The map of a list of pairs has no other keys.
pub proof fn only_listed_keys_are_mapped<K: MapKey, V>(pairs: Seq<(K, V)>, n: int, k: K::V)
    requires
        0 <= n <= pairs.len(),
        mapped(pairs, n).dom().contains(k),
    ensures
        exists|i: int| 0 <= i < n && (#[trigger] pairs[i]).0@ == k,
    decreases n,
{
    if n > 0 {
        if pairs[n - 1].0@ == k {
            assert(pairs[n - 1].0@ == k);
        } else {
            only_listed_keys_are_mapped(pairs, n - 1, k);
        }
    }
}

/// The score of each example in a full evaluation: with a cache that has an entry
/// for it, that of the entry; else that which the batch has at the place of the
/// example among those that were missing.
pub proof fn each_score_is_cached_or_fresh<Id: DataId, T>(
    before: GEPAState<Id>,
    after: GEPAState<Id>,
    entries: Seq<(Seq<char>, Seq<char>)>,
    val_ids: Seq<Id::V>,
    plan: FullEvalPlan<Id>,
    batch: EvaluationBatch<T, Value>,
    full: FullValsetEvaluation<Id>,
    i: int,
)
    requires
        absorbed(before, after, entries, val_ids, plan, batch, Ok(full)),
        plan.fits(before, entries, val_ids),
        batch.wf(),
        val_ids.no_duplicates(),
        0 <= i < val_ids.len(),
    ensures
        ({
            let key = cache_key(entries, Id::json_spec(val_ids[i]));
            let missing = views(plan.uncached_ids@);
            &&& before.evaluation_cache is None ==> full.scores@[i] == batch.scores@[i]
            &&& before.evaluation_cache is Some && before.evaluation_cache->0@.dom().contains(key)
                ==> full.scores@[i] == before.evaluation_cache->0@[key].score
            &&& before.evaluation_cache is Some && !before.evaluation_cache->0@.dom().contains(key)
                ==> exists|j: int|
                0 <= j < missing.len() && #[trigger] missing[j] == val_ids[i] && full.scores@[i]
                    == batch.scores@[j]
        }),
{
    let id = val_ids[i];
    let key = cache_key(entries, Id::json_spec(id));
    let missing = views(plan.uncached_ids@);
    let found = contents(plan.cached);
    if let Some(cache) = before.evaluation_cache {
        let c = cache@;
        let n = val_ids.len() as int;
        let f = |x: Id::V| !c.dom().contains(cache_key(entries, Id::json_spec(x)));
        misses_are_those_without_an_entry::<Id>(c, entries, val_ids, n);
        hits_are_the_entries::<Id>(c, entries, val_ids, id);
        assert(val_ids.take(n) =~= val_ids);
        assert(missing == val_ids.filter(f));
        lemma_filter_members(val_ids, f, id);
        assert(val_ids.contains(id));
        if missing.len() == 0 {
            merged_results_are_complete(full, val_ids, found, missing, None, i);
        } else {
            a_sound_batch_is_aligned_and_finite(batch, missing.len(), false);
            let fresh = choose|fresh: FullValsetEvaluation<Id>|
                #[trigger] built_from(fresh, missing, batch, missing.len() as usize)
                    && crate::optimizer::engine::completed(
                    Ok(full),
                    val_ids,
                    found,
                    missing,
                    Some(fresh),
                );
            merged_results_are_complete(full, val_ids, found, missing, Some(fresh), i);
            lemma_filter_distinct(val_ids, f);
            let fresh_scores = fresh.valset_evaluation.scores_by_val_id@;
            results_of_a_batch_are_at_their_places(
                fresh,
                missing,
                batch,
                missing.len() as usize,
                0,
            );
            assert(fresh_scores.dom().contains(id) <==> missing.contains(id));
            if missing.contains(id) {
                let j = choose|j: int| 0 <= j < missing.len() && missing[j] == id;
                results_of_a_batch_are_at_their_places(
                    fresh,
                    missing,
                    batch,
                    missing.len() as usize,
                    j,
                );
                assert(missing[j] == val_ids[i] && full.scores@[i] == batch.scores@[j]);
            }
        }
    }
}

proof fn lemma_filter_members<T>(s: Seq<T>, f: spec_fn(T) -> bool, x: T)
    ensures
        s.filter(f).contains(x) <==> s.contains(x) && f(x),
    decreases s.len(),
{
    reveal(Seq::filter);
    if s.len() > 0 {
        let front = s.drop_last();
        lemma_filter_members(front, f, x);
        let before = front.filter(f);
        let now = s.filter(f);
        if before.contains(x) {
            let i = choose|i: int| 0 <= i < before.len() && before[i] == x;
            assert(now[i] == x);
        }
        if now.contains(x) {
            let i = choose|i: int| 0 <= i < now.len() && now[i] == x;
            if i < before.len() {
                assert(before[i] == x);
            } else {
                assert(s[s.len() - 1] == x);
            }
        }
        if front.contains(x) {
            let i = choose|i: int| 0 <= i < front.len() && front[i] == x;
            assert(s[i] == x);
        }
        if s.contains(x) && f(x) {
            let i = choose|i: int| 0 <= i < s.len() && s[i] == x;
            if i < front.len() {
                assert(front[i] == x);
                assert(before.contains(x));
            } else {
                assert(now[before.len() as int] == x);
            }
        }
    }
}

proof fn lemma_filter_distinct<T>(s: Seq<T>, f: spec_fn(T) -> bool)
    requires
        s.no_duplicates(),
    ensures
        s.filter(f).no_duplicates(),
    decreases s.len(),
{
    reveal(Seq::filter);
    if s.len() > 0 {
        let front = s.drop_last();
        lemma_filter_distinct(front, f);
        lemma_filter_members(front, f, s.last());
        let before = front.filter(f);
        let now = s.filter(f);
        assert(!front.contains(s.last()));
        assert forall|i: int, j: int| 0 <= i < now.len() && 0 <= j < now.len() && i
            != j implies now[i] != now[j] by {
            if i < before.len() {
                assert(before.contains(before[i]));
            }
            if j < before.len() {
                assert(before.contains(before[j]));
            }
        }
    }
}

/// Candidates whose keys are the same have the same fingerprint.
pub proof fn keys_tell_candidates_apart(
    a: Seq<(Seq<char>, Seq<char>)>,
    b: Seq<(Seq<char>, Seq<char>)>,
    id: Seq<char>,
)
    requires
        cache_key(a, id) == cache_key(b, id),
    ensures
        fingerprint(a) == fingerprint(b),
{
    let x = fingerprint(a);
    let y = fingerprint(b);
    assert(cache_key(a, id).len() == x.len() + ":"@.len() + id.len());
    assert(cache_key(b, id).len() == y.len() + ":"@.len() + id.len());
    assert(cache_key(a, id).take(x.len() as int) =~= x);
    assert(cache_key(b, id).take(y.len() as int) =~= y);
}

/// The mean of an objective is that of its scores in the rows that have one, in
/// their order, and there is one just where some row has the objective.
pub proof fn means_are_of_the_rows_that_have_the_objective<A: ScoreArithmetic>(
    arith: A,
    rows: Seq<ObjectiveScores>,
    means: Map<Seq<char>, Score>,
    name: Seq<char>,
)
    requires
        means_of(arith, rows, means),
    ensures
        means.dom().contains(name) <==> exists|i: int|
            0 <= i < rows.len() && (#[trigger] rows[i])@.dom().contains(name),
        means.dom().contains(name) ==> averages_to(
            arith,
            rows.filter(|r: ObjectiveScores| r@.dom().contains(name)).map_values(
                |r: ObjectiveScores| r@[name],
            ),
            means[name],
        ),
{
    column_has_the_scores_of_the_rows(rows, name, rows.len() as int);
    assert(rows.take(rows.len() as int) =~= rows);
}

/// The mean score of an evaluation is that of all its scores.
pub proof fn the_mean_is_of_all_scores<Id: DataId, A: ScoreArithmetic>(
    evaluation: ValsetEvaluation<Id>,
    arith: A,
)
    requires
        evaluation.means_by(arith),
        evaluation.scores_by_val_id.wf(),
        evaluation.scores_by_val_id@.dom().len() > 0,
    ensures
        averages_to(arith, evaluation.scores_by_val_id.value_seq(), evaluation.mean_score),
        evaluation.scores_by_val_id.value_seq().len() == evaluation.scores_by_val_id@.dom().len(),
{
    evaluation.scores_by_val_id.lemma_size();
}

/// Fresh results are in the cache afterwards, under the candidate and the example.
pub proof fn fresh_results_are_cached<Id: DataId, T>(
    before: GEPAState<Id>,
    after: GEPAState<Id>,
    entries: Seq<(Seq<char>, Seq<char>)>,
    val_ids: Seq<Id::V>,
    plan: FullEvalPlan<Id>,
    batch: EvaluationBatch<T, Value>,
    full: FullValsetEvaluation<Id>,
    j: int,
)
    requires
        absorbed(before, after, entries, val_ids, plan, batch, Ok(full)),
        before.evaluation_cache is Some,
        0 <= j < plan.uncached_ids@.len(),
        forall|k: int|
            j < k < plan.uncached_ids@.len() ==> Id::json_spec(
                (#[trigger] plan.uncached_ids@[k])@,
            ) != Id::json_spec(plan.uncached_ids@[j]@),
    ensures
        ({
            let key = cache_key(entries, Id::json_spec(plan.uncached_ids@[j]@));
            &&& after.evaluation_cache is Some
            &&& after.evaluation_cache->0@.dom().contains(key)
            &&& after.evaluation_cache->0@[key].score == batch.scores@[j]
            &&& after.evaluation_cache->0@[key].output == batch.outputs@[j]
        }),
        after.program_candidates == before.program_candidates,
{
    let missing = views(plan.uncached_ids@);
    let cache = before.evaluation_cache->0@;
    lemma_stored_last::<Id>(
        cache,
        entries,
        missing,
        batch.outputs@,
        batch.scores@,
        optional_rows(batch.objective_scores),
        missing.len() as int,
        j,
    );
}

proof fn lemma_stored_last<Id: DataId>(
    cache: Map<Seq<char>, CachedView>,
    entries: Seq<(Seq<char>, Seq<char>)>,
    ids: Seq<Id::V>,
    outputs: Seq<Value>,
    scores: Seq<Score>,
    rows: Option<Seq<Map<Seq<char>, Score>>>,
    n: int,
    j: int,
)
    requires
        0 <= j < n <= ids.len(),
        forall|k: int|
            j < k < n ==> Id::json_spec(#[trigger] ids[k]) != Id::json_spec(ids[j]),
    ensures
        ({
            let key = cache_key(entries, Id::json_spec(ids[j]));
            let after = stored::<Id>(cache, entries, ids, outputs, scores, rows, n);
            &&& after.dom().contains(key)
            &&& after[key].score == scores[j]
            &&& after[key].output == outputs[j]
        }),
    decreases n,
{
    if j < n - 1 {
        lemma_stored_last::<Id>(cache, entries, ids, outputs, scores, rows, n - 1, j);
        if cache_key(entries, Id::json_spec(ids[n - 1])) == cache_key(
            entries,
            Id::json_spec(ids[j]),
        ) {
            keys_of_one_candidate_differ_by_the_example(
                entries,
                Id::json_spec(ids[n - 1]),
                Id::json_spec(ids[j]),
            );
            assert(Id::json_spec(ids[n - 1]) != Id::json_spec(ids[j]));
        }
    }
}

} // verus!
