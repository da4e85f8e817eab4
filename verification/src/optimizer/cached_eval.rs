//! Evaluation on the validation set with the help of the cache.
use serde_json::Value;
use vstd::prelude::*;

use crate::error::{GEPAError, Result};
use crate::keyed::{copy_map, views, KeyMap, MapKey};
use crate::optimizer::adapter::{candidate_entries, Candidate, ObjectiveScores};
use crate::optimizer::cache::{
    cache_key, copy_objectives, is_hit, misses, optional_rows, row_views, rows_wf, stored,
    CachedEvaluation, CachedView, EvaluationCache,
};
use crate::optimizer::data_loader::DataId;
use crate::optimizer::evaluation::ValsetEvaluation;
use crate::optimizer::fronts::all_rows_wf;
use crate::optimizer::state::{json_number, null_value, GEPAState};
use crate::score::{Score, ScoreArithmetic};

verus! {

/// Outputs, scores and objective scores by example.
pub type Evaluated<Id> = (
    KeyMap<Id, Value>,
    KeyMap<Id, Score>,
    Option<KeyMap<Id, ObjectiveScores>>,
);

/// The maps are valid.
pub open spec fn evaluated_wf<Id: DataId>(e: Evaluated<Id>) -> bool {
    &&& e.0.wf()
    &&& e.1.wf()
    &&& (e.2 matches Some(rows) ==> all_rows_wf(rows))
}

/// The contents of the rows.
pub open spec fn rows_view<Id: DataId>(rows: KeyMap<Id, ObjectiveScores>) -> Map<
    Id::V,
    Map<Seq<char>, Score>,
> {
    rows@.map_values(|row: ObjectiveScores| row@)
}

/// The contents of optional rows.
pub open spec fn optional_rows_view<Id: DataId>(rows: Option<KeyMap<Id, ObjectiveScores>>) -> Option<
    Map<Id::V, Map<Seq<char>, Score>>,
> {
    match rows {
        Some(m) => Some(rows_view(m)),
        None => None,
    }
}

/// The contents of cached results.
pub open spec fn contents<Id: DataId>(cached: KeyMap<Id, CachedEvaluation>) -> Map<
    Id::V,
    CachedView,
> {
    cached@.map_values(|c: CachedEvaluation| c@)
}

/// Every cached result is valid.
pub open spec fn cached_wf<Id: DataId>(cached: KeyMap<Id, CachedEvaluation>) -> bool {
    &&& cached.wf()
    &&& forall|i: int|
        0 <= i < cached.value_seq().len() ==> (#[trigger] cached.value_seq()[i]).wf()
}

/// The outputs of cached results.
pub open spec fn outputs_of<K>(cached: Map<K, CachedView>) -> Map<K, Value> {
    cached.map_values(|c: CachedView| c.output)
}

/// The scores of cached results.
pub open spec fn scores_of<K>(cached: Map<K, CachedView>) -> Map<K, Score> {
    cached.map_values(|c: CachedView| c.score)
}

/// The objective scores of those cached results that have them; none where no
/// cached result has them.
pub open spec fn rows_in<K>(cached: Map<K, CachedView>) -> Option<Map<K, Map<Seq<char>, Score>>> {
    if exists|k: K| cached.dom().contains(k) && (#[trigger] cached[k]).objectives is Some {
        Some(
            Map::new(
                |k: K| cached.dom().contains(k) && cached[k].objectives is Some,
                |k: K| cached[k].objectives->0,
            ),
        )
    } else {
        None
    }
}

/// The first rows with the second ones added.
pub open spec fn more_rows<K>(
    a: Option<Map<K, Map<Seq<char>, Score>>>,
    b: Option<Map<K, Map<Seq<char>, Score>>>,
) -> Option<Map<K, Map<Seq<char>, Score>>> {
    match b {
        None => a,
        Some(new) => match a {
            None => Some(new),
            Some(old) => Some(old.union_prefer_right(new)),
        },
    }
}

/// The cached results of those examples that have one.
pub open spec fn hits<Id: DataId>(
    cache: Map<Seq<char>, CachedView>,
    entries: Seq<(Seq<char>, Seq<char>)>,
    ids: Seq<Id::V>,
) -> Map<Id::V, CachedView> {
    Map::new(
        |id: Id::V| is_hit::<Id>(cache, entries, ids, ids.len() as int, id),
        |id: Id::V| cache[cache_key(entries, Id::json_spec(id))],
    )
}

fn copy_cached(c: &CachedEvaluation) -> (r: CachedEvaluation)
    requires
        c.wf(),
    ensures
        r.wf(),
        r@ == c@,
{
    CachedEvaluation {
        output: c.output.clone(),
        score: c.score,
        objective_scores: copy_objectives(&c.objective_scores),
    }
}

/// Copies of the cached results of those examples that have one, and the other
/// examples in their order.
pub fn read_cache<Id: DataId>(
    cache: &EvaluationCache,
    candidate: &Candidate,
    ids: &[Id],
) -> (r: (KeyMap<Id, CachedEvaluation>, Vec<Id>))
    requires
        cache.wf(),
    ensures
        cached_wf(r.0),
        contents(r.0) == hits::<Id>(cache@, candidate_entries(*candidate), views(ids@)),
        views(r.1@) == misses::<Id>(
            cache@,
            candidate_entries(*candidate),
            views(ids@),
            ids@.len() as int,
        ),
{
    let ghost entries = candidate_entries(*candidate);
    let (refs, uncached) = cache.get_batch(candidate, ids);
    let n: usize = refs.len();
    let mut cached: KeyMap<Id, CachedEvaluation> = KeyMap::new();
    let mut i: usize = 0;
    assert(refs.key_seq().take(0) =~= cached.key_seq());
    while i < n
        invariant
            refs.wf(),
            n == refs.key_seq().len(),
            i <= n,
            forall|id: Id::V| #[trigger]
                refs@.dom().contains(id) ==> refs@[id].wf() && refs@[id]@ == cache@[cache_key(
                    entries,
                    Id::json_spec(id),
                )],
            cached_wf(cached),
            cached.key_seq() == refs.key_seq().take(i as int),
            forall|j: int|
                0 <= j < i ==> (#[trigger] cached.value_seq()[j])@ == refs.value_seq()[j]@,
        decreases n - i,
    {
        proof {
            refs.lemma_fresh(&cached, i as int);
            refs.lemma_entry(i as int);
        }
        let entry: &CachedEvaluation = *refs.value_at(i);
        let copy = copy_cached(entry);
        let ghost before = cached.value_seq();
        cached.insert(refs.key_at(i).duplicate(), copy);
        assert(refs.key_seq().take(i + 1) =~= cached.key_seq());
        assert forall|j: int| 0 <= j < cached.value_seq().len() implies (
        #[trigger] cached.value_seq()[j]).wf() by {
            if j < before.len() {
                assert(before[j].wf());
            }
        }
        i += 1;
    }
    proof {
        assert(cached.key_seq() =~= refs.key_seq());
        let h = hits::<Id>(cache@, entries, views(ids@));
        assert forall|id: Id::V| contents(cached).dom().contains(id) == h.dom().contains(id) by {
            assert(contents(cached).dom().contains(id) == refs@.dom().contains(id));
        }
        assert forall|id: Id::V| #[trigger] contents(cached).dom().contains(id) implies contents(
            cached,
        )[id] == h[id] by {
            let p = cached.lemma_position(id);
            refs.lemma_entry(p);
            assert(cached.value_seq()[p]@ == refs.value_seq()[p]@);
        }
        assert(contents(cached) =~= h);
    }
    (cached, uncached)
}

/// The rows are maps, by key.
pub proof fn lemma_rows_wf<Id: DataId>(rows: KeyMap<Id, ObjectiveScores>)
    requires
        rows.wf(),
    ensures
        all_rows_wf(rows) <==> forall|k: Id::V| #[trigger]
            rows@.dom().contains(k) ==> rows@[k].wf(),
{
    if all_rows_wf(rows) {
        assert forall|k: Id::V| #[trigger] rows@.dom().contains(k) implies rows@[k].wf() by {
            let p = rows.lemma_position(k);
            assert(rows.value_seq()[p].wf());
        }
    }
    if forall|k: Id::V| #[trigger] rows@.dom().contains(k) ==> rows@[k].wf() {
        assert forall|i: int| 0 <= i < rows.value_seq().len() implies (
        #[trigger] rows.value_seq()[i]).wf() by {
            rows.lemma_entry(i);
        }
    }
}

/// The outputs, the scores and the objective scores of cached results.
pub(crate) fn cached_parts<Id: DataId>(cached: &KeyMap<Id, CachedEvaluation>) -> (r: Evaluated<Id>)
    requires
        cached_wf(*cached),
    ensures
        evaluated_wf(r),
        r.0@ == outputs_of(contents(*cached)),
        r.1@ == scores_of(contents(*cached)),
        optional_rows_view(r.2) == rows_in(contents(*cached)),
{
    let ghost all = contents(*cached);
    let n: usize = cached.len();
    let mut outputs: KeyMap<Id, Value> = KeyMap::new();
    let mut scores: KeyMap<Id, Score> = KeyMap::new();
    let mut rows: KeyMap<Id, ObjectiveScores> = KeyMap::new();
    let mut i: usize = 0;
    proof {
        cached.lemma_all();
    }
    while i < n
        invariant
            cached_wf(*cached),
            all == contents(*cached),
            n == cached.key_seq().len(),
            i <= n,
            outputs.wf(),
            scores.wf(),
            rows.wf(),
            forall|k: Id::V| #[trigger] rows@.dom().contains(k) ==> rows@[k].wf(),
            forall|k: Id::V| #[trigger]
                outputs@.dom().contains(k) <==> cached.first(i as int).dom().contains(k),
            forall|k: Id::V| #[trigger]
                scores@.dom().contains(k) <==> cached.first(i as int).dom().contains(k),
            forall|k: Id::V| #[trigger]
                rows@.dom().contains(k) <==> cached.first(i as int).dom().contains(k)
                    && all[k].objectives is Some,
            forall|k: Id::V| #[trigger] outputs@.dom().contains(k) ==> outputs@[k] == all[k].output,
            forall|k: Id::V| #[trigger] scores@.dom().contains(k) ==> scores@[k] == all[k].score,
            forall|k: Id::V| #[trigger]
                rows@.dom().contains(k) ==> Some(rows@[k]@) == all[k].objectives,
        decreases n - i,
    {
        let key = cached.key_at(i);
        let entry = cached.value_at(i);
        proof {
            cached.lemma_entry(i as int);
            cached.lemma_first(i as int);
            assert(cached.value_seq()[i as int].wf());
        }
        outputs.insert(key.duplicate(), entry.output.clone());
        scores.insert(key.duplicate(), entry.score);
        if let Some(objectives) = &entry.objective_scores {
            rows.insert(key.duplicate(), copy_map(objectives));
        }
        i += 1;
    }
    proof {
        cached.lemma_all();
        assert(outputs@ =~= outputs_of(all));
        assert(scores@ =~= scores_of(all));
        lemma_rows_wf(rows);
    }
    let found = !rows.is_empty();
    if found {
        proof {
            let p = rows.key_seq()[0];
            rows.lemma_entry(0);
            assert(all.dom().contains(p) && all[p].objectives is Some);
            assert(rows_view(rows) =~= rows_in(all)->0);
        }
        (outputs, scores, Some(rows))
    } else {
        proof {
            assert(rows_in(all) is None) by {
                if exists|k: Id::V|
                    all.dom().contains(k) && (#[trigger] all[k]).objectives is Some {
                    let k = choose|k: Id::V|
                        all.dom().contains(k) && (#[trigger] all[k]).objectives is Some;
                    assert(rows@.dom().contains(k));
                }
            }
        }
        (outputs, scores, None)
    }
}

/// The rows of `a` with those of `b` added.
pub(crate) fn add_rows<Id: DataId>(
    a: Option<KeyMap<Id, ObjectiveScores>>,
    b: Option<KeyMap<Id, ObjectiveScores>>,
) -> (r: Option<KeyMap<Id, ObjectiveScores>>)
    requires
        a matches Some(m) ==> all_rows_wf(m),
        b matches Some(m) ==> all_rows_wf(m),
    ensures
        r matches Some(m) ==> all_rows_wf(m),
        optional_rows_view(r) == more_rows(optional_rows_view(a), optional_rows_view(b)),
{
    match b {
        None => a,
        Some(new) => match a {
            None => Some(new),
            Some(old_rows) => {
                let mut rows = old_rows;
                let ghost va = rows@;
                let ghost vb = new@;
                proof {
                    lemma_rows_wf(rows);
                    lemma_rows_wf(new);
                }
                rows.extend(new);
                proof {
                    lemma_rows_wf(rows);
                    assert(rows_view(rows) =~= va.map_values(
                        |row: ObjectiveScores| row@,
                    ).union_prefer_right(vb.map_values(|row: ObjectiveScores| row@)));
                }
                Some(rows)
            },
        },
    }
}

/// What is stored for the examples `ids`: the outputs.
pub open spec fn output_list<K>(outputs: Map<K, Value>, ids: Seq<K>) -> Seq<Value> {
    Seq::new(
        ids.len(),
        |i: int|
            if outputs.dom().contains(ids[i]) {
                outputs[ids[i]]
            } else {
                null_value()
            },
    )
}

/// The scores on the examples `ids`; zero where there is none.
pub open spec fn scores_on<K>(scores: Map<K, Score>, ids: Seq<K>) -> Seq<Score> {
    Seq::new(
        ids.len(),
        |i: int|
            if scores.dom().contains(ids[i]) {
                scores[ids[i]]
            } else {
                Score { bits: 0 }
            },
    )
}

/// What is stored for the examples `ids`: the objective scores.
pub open spec fn row_list<K>(rows: Option<Map<K, Map<Seq<char>, Score>>>, ids: Seq<K>) -> Option<
    Seq<Map<Seq<char>, Score>>,
> {
    match rows {
        None => None,
        Some(m) => Some(
            Seq::new(
                ids.len(),
                |i: int|
                    if m.dom().contains(ids[i]) {
                        m[ids[i]]
                    } else {
                        Map::empty()
                    },
            ),
        ),
    }
}

fn list_outputs<Id: DataId>(outputs: &KeyMap<Id, Value>, ids: &Vec<Id>) -> (list: Vec<Value>)
    requires
        outputs.wf(),
    ensures
        list@ == output_list(outputs@, views(ids@)),
{
    let mut list: Vec<Value> = Vec::new();
    let mut i: usize = 0;
    while i < ids.len()
        invariant
            outputs.wf(),
            i <= ids@.len(),
            list@.len() == i,
            forall|j: int| 0 <= j < i ==> list@[j] == output_list(outputs@, views(ids@))[j],
        decreases ids@.len() - i,
    {
        let v = match outputs.get(&ids[i]) {
            Some(v) => v.clone(),
            None => json_number(None),
        };
        list.push(v);
        i += 1;
    }
    assert(list@ =~= output_list(outputs@, views(ids@)));
    list
}

pub(crate) fn list_scores_on<Id: DataId>(scores: &KeyMap<Id, Score>, ids: &Vec<Id>) -> (list: Vec<Score>)
    requires
        scores.wf(),
    ensures
        list@ == scores_on(scores@, views(ids@)),
{
    let mut list: Vec<Score> = Vec::new();
    let mut i: usize = 0;
    while i < ids.len()
        invariant
            scores.wf(),
            i <= ids@.len(),
            list@.len() == i,
            forall|j: int| 0 <= j < i ==> list@[j] == scores_on(scores@, views(ids@))[j],
        decreases ids@.len() - i,
    {
        let s = match scores.get(&ids[i]) {
            Some(s) => *s,
            None => Score::zero(),
        };
        list.push(s);
        i += 1;
    }
    assert(list@ =~= scores_on(scores@, views(ids@)));
    list
}

fn list_rows<Id: DataId>(
    rows: &Option<KeyMap<Id, ObjectiveScores>>,
    ids: &Vec<Id>,
) -> (list: Option<Vec<ObjectiveScores>>)
    requires
        *rows matches Some(m) ==> all_rows_wf(m),
    ensures
        rows_wf(list),
        optional_rows(list) == row_list(optional_rows_view(*rows), views(ids@)),
{
    match rows {
        None => None,
        Some(m) => {
            let mut list: Vec<ObjectiveScores> = Vec::new();
            let mut i: usize = 0;
            proof {
                lemma_rows_wf(*m);
            }
            while i < ids.len()
                invariant
                    m.wf(),
                    forall|k: Id::V| #[trigger] m@.dom().contains(k) ==> m@[k].wf(),
                    i <= ids@.len(),
                    list@.len() == i,
                    forall|j: int| 0 <= j < i ==> (#[trigger] list@[j]).wf(),
                    forall|j: int|
                        0 <= j < i ==> (#[trigger] list@[j])@ == row_list(
                            Some(rows_view(*m)),
                            views(ids@),
                        )->0[j],
                decreases ids@.len() - i,
            {
                let row = match m.get(&ids[i]) {
                    Some(row) => copy_map(row),
                    None => KeyMap::new(),
                };
                list.push(row);
                i += 1;
            }
            assert(row_views(list@) =~= row_list(Some(rows_view(*m)), views(ids@))->0);
            Some(list)
        },
    }
}

/// What the evaluation of a candidate with the help of the cache gives: the
/// results, where `fresh` are those of the examples that the cache lacks.
pub open spec fn merged_with<Id: DataId>(
    evaluation: ValsetEvaluation<Id>,
    cached: Map<Id::V, CachedView>,
    fresh: Evaluated<Id>,
) -> bool {
    &&& evaluation.outputs_by_val_id@ == outputs_of(cached).union_prefer_right(fresh.0@)
    &&& evaluation.scores_by_val_id@ == scores_of(cached).union_prefer_right(fresh.1@)
    &&& optional_rows_view(evaluation.objective_scores_by_val_id) == more_rows(
        rows_in(cached),
        optional_rows_view(fresh.2),
    )
}

/// Whether `result` may come back from a call of `f` on the examples `ids`.
pub open spec fn answers<
    Id: DataId,
    F: FnOnce(&[Id], &Candidate) -> Result<Evaluated<Id>>,
>(f: F, ids: Seq<Id::V>, candidate: Candidate, result: Result<Evaluated<Id>>) -> bool {
    exists|list: &[Id]|
        views(list@) == ids && #[trigger] call_ensures(f, (list, &candidate), result)
}

impl<Id: DataId> GEPAState<Id> {
    /// Evaluate `candidate` on the examples `example_ids`, where the cache has
    /// no result. Returns all results, and the number of examples that were
    /// not served from the cache. New results are stored in the cache. Without
    /// a cache every example is evaluated.
    ///
    /// # Errors
    /// The error of `evaluate_fn`.
    pub fn cached_evaluate_valset<
        F: FnOnce(&[Id], &Candidate) -> Result<Evaluated<Id>>,
        A: ScoreArithmetic,
    >(&mut self, candidate: &Candidate, example_ids: &[Id], evaluate_fn: F, arith: &A) -> (r: Result<
        (ValsetEvaluation<Id>, usize),
    >)
        requires
            old(self).evaluation_cache matches Some(cache) ==> cache.wf(),
            forall|ids: &[Id], c: &Candidate| call_requires(evaluate_fn, (ids, c)),
            forall|ids: &[Id], c: &Candidate, e: Evaluated<Id>| #[trigger]
                call_ensures(evaluate_fn, (ids, c), Ok::<Evaluated<Id>, GEPAError>(e))
                    ==> evaluated_wf(e),
        ensures
            *final(self) == (GEPAState {
                evaluation_cache: final(self).evaluation_cache,
                ..*old(self)
            }),
            final(self).evaluation_cache matches Some(cache) ==> cache.wf(),
            r matches Ok((evaluation, _)) ==> evaluation.wf() && evaluation.means_by(*arith),
            match old(self).evaluation_cache {
                None => {
                    &&& final(self).evaluation_cache is None
                    &&& exists|result: Result<Evaluated<Id>>|
                        #[trigger] answers(evaluate_fn, views(example_ids@), *candidate, result)
                            && match (result, r) {
                            (Ok(fresh), Ok((evaluation, n))) => {
                                &&& n == example_ids@.len()
                                &&& evaluation.outputs_by_val_id == fresh.0
                                &&& evaluation.scores_by_val_id == fresh.1
                                &&& evaluation.objective_scores_by_val_id == fresh.2
                            },
                            (Err(e), Err(error)) => e == error,
                            _ => false,
                        }
                },
                Some(cache) => {
                    let entries = candidate_entries(*candidate);
                    let ids = views(example_ids@);
                    let found = hits::<Id>(cache@, entries, ids);
                    let missing = misses::<Id>(cache@, entries, ids, ids.len() as int);
                    &&& final(self).evaluation_cache is Some
                    &&& if missing.len() == 0 {
                        &&& final(self).evaluation_cache->0@ == cache@
                        &&& r matches Ok((evaluation, n))
                        &&& n == 0
                        &&& evaluation.outputs_by_val_id@ == outputs_of(found)
                        &&& evaluation.scores_by_val_id@ == scores_of(found)
                        &&& optional_rows_view(evaluation.objective_scores_by_val_id) == rows_in(
                            found,
                        )
                    } else {
                        exists|result: Result<Evaluated<Id>>|
                            #[trigger] answers(evaluate_fn, missing, *candidate, result) && match (
                                result,
                                r,
                            ) {
                                (Ok(fresh), Ok((evaluation, n))) => {
                                    &&& n == missing.len()
                                    &&& merged_with(evaluation, found, fresh)
                                    &&& final(self).evaluation_cache->0@ == stored::<Id>(
                                        cache@,
                                        entries,
                                        missing,
                                        output_list(fresh.0@, missing),
                                        scores_on(fresh.1@, missing),
                                        row_list(optional_rows_view(fresh.2), missing),
                                        missing.len() as int,
                                    )
                                },
                                (Err(e), Err(error)) => {
                                    &&& e == error
                                    &&& final(self).evaluation_cache->0@ == cache@
                                },
                                _ => false,
                            }
                    }
                },
            },
    {
        let (cached, uncached) = match &self.evaluation_cache {
            None => {
                let result = evaluate_fn(example_ids, candidate);
                assert(answers(evaluate_fn, views(example_ids@), *candidate, result));
                return match result {
                    Ok((outputs, scores, rows)) => Ok(
                        (
                            ValsetEvaluation::assemble(outputs, scores, rows, arith),
                            example_ids.len(),
                        ),
                    ),
                    Err(e) => Err(e),
                };
            },
            Some(cache) => read_cache(cache, candidate, example_ids),
        };
        let (mut outputs, mut scores, rows) = cached_parts(&cached);
        if uncached.len() == 0 {
            return Ok((ValsetEvaluation::assemble(outputs, scores, rows, arith), 0));
        }
        let result = evaluate_fn(uncached.as_slice(), candidate);
        assert(answers(evaluate_fn, views(uncached@), *candidate, result));
        match result {
            Err(e) => Err(e),
            Ok((new_outputs, new_scores, new_rows)) => {
                let output_vec = list_outputs(&new_outputs, &uncached);
                let score_vec = list_scores_on(&new_scores, &uncached);
                let row_vec = list_rows(&new_rows, &uncached);
                if let Some(cache) = &mut self.evaluation_cache {
                    cache.put_batch(candidate, uncached.as_slice(), output_vec, score_vec, row_vec);
                }
                outputs.extend(new_outputs);
                scores.extend(new_scores);
                let all_rows = add_rows(rows, new_rows);
                let n: usize = uncached.len();
                Ok((ValsetEvaluation::assemble(outputs, scores, all_rows, arith), n))
            },
        }
    }
}

} // verus!
