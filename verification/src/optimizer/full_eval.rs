//! Results of evaluations on the whole validation set.
use serde_json::Value;
use vstd::prelude::*;

use crate::error::{GEPAError, Result};
use crate::keyed::{copy_map, views, KeyMap, MapKey};
use crate::optimizer::adapter::{EvaluationBatch, ObjectiveScores};
use crate::optimizer::cache::{optional_rows, row_views, rows_wf, CachedEvaluation, CachedView};
use crate::optimizer::cached_eval::{
    add_rows, cached_parts, cached_wf, contents, more_rows, optional_rows_view, outputs_of, rows_in,
    scores_of,
};
use crate::optimizer::data_loader::DataId;
use crate::optimizer::evaluation::{zipped, ValsetEvaluation};
use crate::optimizer::fronts::all_rows_wf;
use crate::score::{Score, ScoreArithmetic};

verus! {

/// The results of an evaluation by example, and in the order of the examples.
pub struct FullValsetEvaluation<Id: DataId> {
    /// The results by example.
    pub valset_evaluation: ValsetEvaluation<Id>,
    /// The scores in the order of the examples.
    pub scores: Vec<Score>,
    /// The outputs in the order of the examples.
    pub outputs: Vec<Value>,
    /// The objective scores in the order of the examples, if there are any.
    pub objective_scores: Option<Vec<ObjectiveScores>>,
    /// The number of examples that were evaluated for this.
    pub metric_evals: usize,
}

impl<Id: DataId> FullValsetEvaluation<Id> {
    /// The maps are valid.
    pub open spec fn wf(&self) -> bool {
        &&& self.valset_evaluation.wf()
        &&& rows_wf(self.objective_scores)
    }
}

/// A copy of a list of JSON values.
pub fn copy_values(list: &Vec<Value>) -> (copy: Vec<Value>)
    ensures
        copy@ == list@,
{
    let mut copy: Vec<Value> = Vec::new();
    let mut i: usize = 0;
    while i < list.len()
        invariant
            i <= list@.len(),
            copy@ == list@.take(i as int),
        decreases list@.len() - i,
    {
        copy.push(list[i].clone());
        assert(copy@ =~= list@.take(i + 1));
        i += 1;
    }
    assert(copy@ =~= list@);
    copy
}

/// A copy of a list of scores.
pub fn copy_scores(list: &Vec<Score>) -> (copy: Vec<Score>)
    ensures
        copy@ == list@,
{
    let mut copy: Vec<Score> = Vec::new();
    let mut i: usize = 0;
    while i < list.len()
        invariant
            i <= list@.len(),
            copy@ == list@.take(i as int),
        decreases list@.len() - i,
    {
        copy.push(list[i]);
        assert(copy@ =~= list@.take(i + 1));
        i += 1;
    }
    assert(copy@ =~= list@);
    copy
}

/// A copy of optional objective scores.
pub fn copy_rows(rows: &Option<Vec<ObjectiveScores>>) -> (copy: Option<Vec<ObjectiveScores>>)
    requires
        rows_wf(*rows),
    ensures
        rows_wf(copy),
        optional_rows(copy) == optional_rows(*rows),
{
    match rows {
        None => None,
        Some(list) => {
            let mut copy: Vec<ObjectiveScores> = Vec::new();
            let mut i: usize = 0;
            while i < list.len()
                invariant
                    forall|j: int| 0 <= j < list@.len() ==> (#[trigger] list@[j]).wf(),
                    i <= list@.len(),
                    copy@.len() == i,
                    forall|j: int| 0 <= j < i ==> (#[trigger] copy@[j]).wf(),
                    forall|j: int| 0 <= j < i ==> (#[trigger] copy@[j])@ == list@[j]@,
                decreases list@.len() - i,
            {
                assert(list@[i as int].wf());
                copy.push(copy_map(&list[i]));
                i += 1;
            }
            assert(row_views(copy@) =~= row_views(list@));
            Some(copy)
        },
    }
}

/// Copies of identifiers.
pub fn copy_ids<Id: MapKey>(ids: &[Id]) -> (copy: Vec<Id>)
    ensures
        views(copy@) == views(ids@),
{
    let mut copy: Vec<Id> = Vec::new();
    let mut i: usize = 0;
    while i < ids.len()
        invariant
            i <= ids@.len(),
            copy@.len() == i,
            forall|j: int| 0 <= j < i ==> (#[trigger] copy@[j])@ == ids@[j]@,
        decreases ids@.len() - i,
    {
        copy.push(ids[i].duplicate());
        i += 1;
    }
    assert(views(copy@) =~= views(ids@));
    copy
}

proof fn lemma_zipped_rows<K>(ids: Seq<K>, rows: Seq<ObjectiveScores>, n: int)
    requires
        0 <= n <= ids.len(),
        n <= rows.len(),
    ensures
        zipped(ids, rows, n).map_values(|row: ObjectiveScores| row@) == zipped(
            ids,
            row_views(rows),
            n,
        ),
    decreases n,
{
    let f = |row: ObjectiveScores| row@;
    if n > 0 {
        lemma_zipped_rows(ids, rows, n - 1);
        assert(zipped(ids, rows, n).map_values(f) =~= zipped(ids, rows, n - 1).map_values(f).insert(
            ids[n - 1],
            rows[n - 1]@,
        ));
    } else {
        assert(zipped(ids, rows, n).map_values(f) =~= zipped(ids, row_views(rows), n));
    }
}

/// Whether `full` has the results of `batch` for the examples `ids`.
pub open spec fn built_from<Id: DataId, T>(
    full: FullValsetEvaluation<Id>,
    ids: Seq<Id::V>,
    batch: EvaluationBatch<T, Value>,
    metric_evals: usize,
) -> bool {
    let n = ids.len() as int;
    &&& full.wf()
    &&& full.valset_evaluation.outputs_by_val_id@ == zipped(ids, batch.outputs@, n)
    &&& full.valset_evaluation.scores_by_val_id@ == zipped(ids, batch.scores@, n)
    &&& optional_rows_view(full.valset_evaluation.objective_scores_by_val_id) == match optional_rows(
        batch.objective_scores,
    ) {
        Some(rows) => Some(zipped(ids, rows, n)),
        None => None,
    }
    &&& full.scores@ == batch.scores@
    &&& full.outputs@ == batch.outputs@
    &&& optional_rows(full.objective_scores) == optional_rows(batch.objective_scores)
    &&& full.metric_evals == metric_evals
}

/// The results of `batch` for the examples `ids`.
///
/// # Errors
/// An evaluation error where the batch is not valid for that many examples.
pub fn build_valset_evaluation_with_metric_delta<Id: DataId, T, A: ScoreArithmetic>(
    ids: &[Id],
    batch: &EvaluationBatch<T, Value>,
    metric_evals: usize,
    arith: &A,
) -> (r: Result<FullValsetEvaluation<Id>>)
    requires
        batch.wf(),
    ensures
        match r {
            Ok(full) => {
                &&& batch.fault(ids@.len(), false) is None
                &&& built_from(full, views(ids@), *batch, metric_evals)
                &&& full.valset_evaluation.means_by(*arith)
            },
            Err(e) => e matches GEPAError::Evaluation(text) && batch.fault(ids@.len(), false)
                == Some(text@),
        },
{
    batch.validate_lengths(ids.len(), false)?;
    let rows = copy_rows(&batch.objective_scores);
    let ghost copied = rows;
    let evaluation = ValsetEvaluation::from_vecs(
        copy_ids(ids),
        copy_values(&batch.outputs),
        copy_scores(&batch.scores),
        rows,
        arith,
    );
    proof {
        if let Some(list) = copied {
            assert(row_views(list@).len() == row_views(batch.objective_scores->0@).len());
            lemma_zipped_rows(views(ids@), list@, ids@.len() as int);
        }
    }
    Ok(
        FullValsetEvaluation {
            valset_evaluation: evaluation,
            scores: copy_scores(&batch.scores),
            outputs: copy_values(&batch.outputs),
            objective_scores: copy_rows(&batch.objective_scores),
            metric_evals,
        },
    )
}

/// What is missing for the first example at or after position `i` for which
/// something is missing.
pub open spec fn first_gap<Id: DataId>(
    ids: Seq<Id::V>,
    outputs: Map<Id::V, Value>,
    scores: Map<Id::V, Score>,
    rows: Option<Map<Id::V, Map<Seq<char>, Score>>>,
    i: int,
) -> Option<Seq<char>>
    decreases ids.len() - i,
{
    if i < 0 || i >= ids.len() {
        None
    } else if !outputs.dom().contains(ids[i]) {
        Some("missing output for validation id "@ + Id::debug_spec(ids[i]))
    } else if !scores.dom().contains(ids[i]) {
        Some("missing score for validation id "@ + Id::debug_spec(ids[i]))
    } else if rows is Some && !rows->0.dom().contains(ids[i]) {
        Some("missing objective scores for validation id "@ + Id::debug_spec(ids[i]))
    } else {
        first_gap::<Id>(ids, outputs, scores, rows, i + 1)
    }
}

/// The outputs of cached and fresh results.
pub open spec fn merged_outputs<Id: DataId>(
    cached: Map<Id::V, CachedView>,
    fresh: Option<FullValsetEvaluation<Id>>,
) -> Map<Id::V, Value> {
    match fresh {
        Some(full) => outputs_of(cached).union_prefer_right(
            full.valset_evaluation.outputs_by_val_id@,
        ),
        None => outputs_of(cached),
    }
}

/// The scores of cached and fresh results.
pub open spec fn merged_scores<Id: DataId>(
    cached: Map<Id::V, CachedView>,
    fresh: Option<FullValsetEvaluation<Id>>,
) -> Map<Id::V, Score> {
    match fresh {
        Some(full) => scores_of(cached).union_prefer_right(
            full.valset_evaluation.scores_by_val_id@,
        ),
        None => scores_of(cached),
    }
}

/// The objective scores of cached and fresh results.
pub open spec fn merged_rows<Id: DataId>(
    cached: Map<Id::V, CachedView>,
    fresh: Option<FullValsetEvaluation<Id>>,
) -> Option<Map<Id::V, Map<Seq<char>, Score>>> {
    match fresh {
        Some(full) => more_rows(
            rows_in(cached),
            optional_rows_view(full.valset_evaluation.objective_scores_by_val_id),
        ),
        None => rows_in(cached),
    }
}

/// What is wrong with cached and fresh results as those of the examples `ids`.
pub open spec fn merge_fault<Id: DataId>(
    ids: Seq<Id::V>,
    cached: Map<Id::V, CachedView>,
    uncached_ids: Seq<Id::V>,
    fresh: Option<FullValsetEvaluation<Id>>,
) -> Option<Seq<char>> {
    if fresh is None && uncached_ids.len() > 0 {
        Some(
            "internal cache error: uncached IDs were present but no evaluation was provided"@,
        )
    } else {
        first_gap::<Id>(
            ids,
            merged_outputs(cached, fresh),
            merged_scores(cached, fresh),
            merged_rows(cached, fresh),
            0,
        )
    }
}

/// Whether `full` has the cached and the fresh results, and lists those of the
/// examples `ids` in their order. Only the fresh ones count as evaluations.
pub open spec fn merged_from<Id: DataId>(
    full: FullValsetEvaluation<Id>,
    ids: Seq<Id::V>,
    cached: Map<Id::V, CachedView>,
    fresh: Option<FullValsetEvaluation<Id>>,
) -> bool {
    let outputs = merged_outputs(cached, fresh);
    let scores = merged_scores(cached, fresh);
    &&& full.wf()
    &&& full.valset_evaluation.outputs_by_val_id@ == outputs
    &&& full.valset_evaluation.scores_by_val_id@ == scores
    &&& optional_rows_view(full.valset_evaluation.objective_scores_by_val_id) == merged_rows(
        cached,
        fresh,
    )
    &&& full.outputs@ == Seq::new(ids.len(), |i: int| outputs[ids[i]])
    &&& full.scores@ == Seq::new(ids.len(), |i: int| scores[ids[i]])
    &&& optional_rows(full.objective_scores) == match merged_rows(cached, fresh) {
        Some(rows) => Some(Seq::new(ids.len(), |i: int| rows[ids[i]])),
        None => None,
    }
    &&& full.metric_evals == match fresh {
        Some(u) => u.metric_evals,
        None => 0,
    }
}

fn gap<Id: DataId>(what: &str, id: &Id) -> (e: GEPAError)
    ensures
        e matches GEPAError::Evaluation(text) && text@ == what@ + Id::debug_spec(id@),
{
    let mut text = what.to_owned();
    text.append(id.debug_text().as_str());
    GEPAError::Evaluation(text)
}

/// The results for the examples `all_val_ids`: the cached ones, and the fresh
/// ones of the examples that the cache lacks. Only the latter count as
/// evaluations.
///
/// # Errors
/// An evaluation error where a result is missing.
#[verifier::loop_isolation(false)]
pub fn merge_cached_and_uncached<Id: DataId, A: ScoreArithmetic>(
    all_val_ids: &[Id],
    cached: &KeyMap<Id, CachedEvaluation>,
    uncached_ids: &Vec<Id>,
    uncached: Option<FullValsetEvaluation<Id>>,
    arith: &A,
) -> (r: Result<FullValsetEvaluation<Id>>)
    requires
        cached_wf(*cached),
        uncached matches Some(full) ==> full.wf(),
    ensures
        match r {
            Ok(full) => {
                &&& merge_fault(
                    views(all_val_ids@),
                    contents(*cached),
                    views(uncached_ids@),
                    uncached,
                ) is None
                &&& merged_from(full, views(all_val_ids@), contents(*cached), uncached)
                &&& full.valset_evaluation.means_by(*arith)
            },
            Err(e) => e matches GEPAError::Evaluation(text) && merge_fault(
                views(all_val_ids@),
                contents(*cached),
                views(uncached_ids@),
                uncached,
            ) == Some(text@),
        },
{
    let ghost c = contents(*cached);
    let ghost ids = views(all_val_ids@);
    let (mut outputs, mut scores, mut rows) = cached_parts(cached);
    let mut metric_evals: usize = 0;
    let ghost fresh = uncached;
    match uncached {
        Some(full) => {
            metric_evals = full.metric_evals;
            outputs.extend(full.valset_evaluation.outputs_by_val_id);
            scores.extend(full.valset_evaluation.scores_by_val_id);
            rows = add_rows(rows, full.valset_evaluation.objective_scores_by_val_id);
        },
        None => {
            if uncached_ids.len() > 0 {
                return Err(
                    GEPAError::Evaluation(
                        "internal cache error: uncached IDs were present but no evaluation was provided".to_owned(),
                    ),
                );
            }
        },
    }
    let ghost ro = merged_rows(c, fresh);
    assert(outputs@ == merged_outputs(c, fresh));
    assert(scores@ == merged_scores(c, fresh));
    assert(optional_rows_view(rows) == ro);
    let mut ordered_outputs: Vec<Value> = Vec::new();
    let mut ordered_scores: Vec<Score> = Vec::new();
    let mut ordered_rows: Vec<ObjectiveScores> = Vec::new();
    let mut i: usize = 0;
    proof {
        if rows is Some {
            crate::optimizer::cached_eval::lemma_rows_wf(rows->0);
        }
    }
    while i < all_val_ids.len()
        invariant
            ids == views(all_val_ids@),
            outputs.wf(),
            scores.wf(),
            rows matches Some(m) ==> all_rows_wf(m),
            rows matches Some(m) ==> forall|k: Id::V| #[trigger]
                m@.dom().contains(k) ==> m@[k].wf(),
            optional_rows_view(rows) == ro,
            i <= all_val_ids@.len(),
            first_gap::<Id>(ids, outputs@, scores@, ro, 0) == first_gap::<Id>(
                ids,
                outputs@,
                scores@,
                ro,
                i as int,
            ),
            merge_fault(ids, c, views(uncached_ids@), fresh) == first_gap::<Id>(
                ids,
                outputs@,
                scores@,
                ro,
                0,
            ),
            ordered_outputs@.len() == i,
            ordered_scores@.len() == i,
            rows is Some ==> ordered_rows@.len() == i,
            forall|j: int| 0 <= j < i ==> ordered_outputs@[j] == outputs@[#[trigger] ids[j]],
            forall|j: int| 0 <= j < i ==> ordered_scores@[j] == scores@[#[trigger] ids[j]],
            rows is Some ==> forall|j: int|
                0 <= j < i ==> (#[trigger] ordered_rows@[j]).wf() && ordered_rows@[j]@
                    == ro->0[ids[j]],
        decreases all_val_ids@.len() - i,
    {
        let id = &all_val_ids[i];
        assert(ids[i as int] == id@);
        match outputs.get(id) {
            Some(v) => ordered_outputs.push(v.clone()),
            None => return Err(gap("missing output for validation id ", id)),
        }
        match scores.get(id) {
            Some(s) => ordered_scores.push(*s),
            None => return Err(gap("missing score for validation id ", id)),
        }
        if let Some(m) = &rows {
            match m.get(id) {
                Some(row) => ordered_rows.push(copy_map(row)),
                None => {
                    assert(!ro->0.dom().contains(id@));
                    return Err(gap("missing objective scores for validation id ", id));
                },
            }
        }
        i += 1;
    }
    let objective_scores = if rows.is_some() {
        assert(row_views(ordered_rows@) =~= Seq::new(ids.len(), |i: int| ro->0[ids[i]]));
        Some(ordered_rows)
    } else {
        None
    };
    assert(ordered_outputs@ =~= Seq::new(ids.len(), |i: int| merged_outputs(c, fresh)[ids[i]]));
    assert(ordered_scores@ =~= Seq::new(ids.len(), |i: int| merged_scores(c, fresh)[ids[i]]));
    Ok(
        FullValsetEvaluation {
            valset_evaluation: ValsetEvaluation::assemble(outputs, scores, rows, arith),
            scores: ordered_scores,
            outputs: ordered_outputs,
            objective_scores,
            metric_evals,
        },
    )
}

} // verus!
