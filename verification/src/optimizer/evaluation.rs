//! Evaluation results on the validation set.
use serde_json::Value;
use vstd::prelude::*;

use crate::keyed::{views, KeyMap, MapKey};
use crate::optimizer::adapter::ObjectiveScores;
use crate::optimizer::data_loader::DataId;
use crate::optimizer::fronts::all_rows_wf;
use crate::score::{averages_to, lowest, Score, ScoreArithmetic};

verus! {

/// The map from the first `n` keys to the values at the same positions; a
/// later value of a key replaces an earlier one.
pub open spec fn zipped<K, V>(keys: Seq<K>, values: Seq<V>, n: int) -> Map<K, V>
    decreases n,
{
    if n <= 0 {
        Map::empty()
    } else {
        zipped(keys, values, n - 1).insert(keys[n - 1], values[n - 1])
    }
}

/// The smaller of the two.
pub open spec fn smaller(a: nat, b: nat) -> int {
    if a <= b {
        a as int
    } else {
        b as int
    }
}

/// The map from the keys to the values at the same positions.
pub fn zip_map<K: MapKey, V>(keys: &Vec<K>, values: Vec<V>) -> (m: KeyMap<K, V>)
    ensures
        m.wf(),
        m@ == zipped(views(keys@), values@, smaller(keys@.len(), values@.len())),
        forall|i: int| 0 <= i < m.value_seq().len() ==> values@.contains(#[trigger] m.value_seq()[i]),
{
    let ghost all = values@;
    let ghost n = smaller(keys@.len(), all.len());
    let mut m: KeyMap<K, V> = KeyMap::new();
    let mut i: usize = 0;
    for v in it: values.into_iter()
        invariant
            it.seq() == all,
            n == smaller(keys@.len(), all.len()),
            i == smaller(keys@.len(), it.index() as nat),
            m.wf(),
            m@ == zipped(views(keys@), all, i as int),
            forall|j: int| 0 <= j < m.value_seq().len() ==> all.contains(#[trigger] m.value_seq()[j]),
    {
        if i < keys.len() {
            let ghost before = m.value_seq();
            assert(all[i as int] == v);
            m.insert(keys[i].duplicate(), v);
            assert forall|j: int| 0 <= j < m.value_seq().len() implies all.contains(
                #[trigger] m.value_seq()[j],
            ) by {
                if j < before.len() {
                    assert(all.contains(before[j]));
                }
            }
            i += 1;
        }
    }
    m
}

/// The scores that the objective `name` has in the first `n` rows, in order.
pub open spec fn column(rows: Seq<ObjectiveScores>, name: Seq<char>, n: int) -> Seq<Score>
    decreases n,
{
    if n <= 0 {
        seq![]
    } else if rows[n - 1]@.dom().contains(name) {
        column(rows, name, n - 1).push(rows[n - 1]@[name])
    } else {
        column(rows, name, n - 1)
    }
}

/// Whether some row has the objective `name`.
pub open spec fn names_objective(rows: Seq<ObjectiveScores>, name: Seq<char>) -> bool {
    exists|i: int| 0 <= i < rows.len() && (#[trigger] rows[i])@.dom().contains(name)
}

/// Whether `means` has the mean of every objective over the rows that have it.
pub open spec fn means_of<A: ScoreArithmetic>(
    arith: A,
    rows: Seq<ObjectiveScores>,
    means: Map<Seq<char>, Score>,
) -> bool {
    &&& forall|name: Seq<char>| #[trigger] means.dom().contains(name) <==> names_objective(rows, name)
    &&& forall|name: Seq<char>| #[trigger]
        means.dom().contains(name) ==> averages_to(
            arith,
            column(rows, name, rows.len() as int),
            means[name],
        )
}

/// The objective scores of the examples, in order.
pub open spec fn rows_of<Id: DataId>(rows: Option<KeyMap<Id, ObjectiveScores>>) -> Seq<
    ObjectiveScores,
> {
    match rows {
        Some(m) => m.value_seq(),
        None => seq![],
    }
}

fn column_of<Id: DataId>(rows: &KeyMap<Id, ObjectiveScores>, name: &String) -> (list: Vec<Score>)
    requires
        all_rows_wf(*rows),
    ensures
        list@ == column(rows.value_seq(), name@, rows.value_seq().len() as int),
{
    let n: usize = rows.len();
    let mut list: Vec<Score> = Vec::new();
    let mut i: usize = 0;
    while i < n
        invariant
            all_rows_wf(*rows),
            n == rows.value_seq().len(),
            i <= n,
            list@ == column(rows.value_seq(), name@, i as int),
        decreases n - i,
    {
        assert(rows.value_seq()[i as int].wf());
        if let Some(s) = rows.value_at(i).get(name) {
            list.push(*s);
        }
        i += 1;
    }
    list
}

/// The mean of every objective over the examples that have it. Without
/// objective scores there is none.
pub fn mean_objectives<Id: DataId, A: ScoreArithmetic>(
    rows: Option<&KeyMap<Id, ObjectiveScores>>,
    arith: &A,
) -> (means: ObjectiveScores)
    requires
        rows matches Some(m) ==> all_rows_wf(*m),
    ensures
        means.wf(),
        match rows {
            Some(m) => means_of(*arith, m.value_seq(), means@),
            None => means@ == Map::<Seq<char>, Score>::empty(),
        },
{
    let mut means: ObjectiveScores = KeyMap::new();
    if let Some(m) = rows {
        let n: usize = m.len();
        let ghost all = m.value_seq();
        let mut i: usize = 0;
        while i < n
            invariant
                all_rows_wf(*m),
                all == m.value_seq(),
                n == all.len(),
                i <= n,
                means.wf(),
                forall|name: Seq<char>| #[trigger]
                    means@.dom().contains(name) <==> exists|r: int|
                        0 <= r < i && (#[trigger] all[r])@.dom().contains(name),
                forall|name: Seq<char>| #[trigger]
                    means@.dom().contains(name) ==> averages_to(
                        *arith,
                        column(all, name, n as int),
                        means@[name],
                    ),
            decreases n - i,
        {
            let row = m.value_at(i);
            assert(all[i as int].wf());
            let k: usize = row.len();
            let ghost before = means@;
            let mut j: usize = 0;
            while j < k
                invariant
                    all_rows_wf(*m),
                    all == m.value_seq(),
                    n == all.len(),
                    row.wf(),
                    k == row.key_seq().len(),
                    j <= k,
                    means.wf(),
                    forall|name: Seq<char>| #[trigger]
                        means@.dom().contains(name) <==> before.dom().contains(name)
                            || row.key_seq().take(j as int).contains(name),
                    forall|name: Seq<char>| #[trigger]
                        means@.dom().contains(name) ==> averages_to(
                            *arith,
                            column(all, name, n as int),
                            means@[name],
                        ),
                decreases k - j,
            {
                let name = row.key_at(j);
                let ghost nv = name@;
                proof {
                    let t0 = row.key_seq().take(j as int);
                    let t1 = row.key_seq().take(j + 1);
                    assert(t1 =~= t0.push(nv));
                    assert forall|x: Seq<char>| t1.contains(x) <==> t0.contains(x) || x == nv by {
                        if t0.contains(x) {
                            let q = choose|q: int| 0 <= q < t0.len() && t0[q] == x;
                            assert(t1[q] == x);
                        }
                        if x == nv {
                            assert(t1[j as int] == x);
                        }
                    }
                }
                if !means.contains_key(name) {
                    let list = column_of(m, name);
                    let mean = arith.mean(&list);
                    assert(averages_to(*arith, column(all, nv, n as int), mean));
                    means.insert(name.duplicate(), mean);
                }
                j += 1;
            }
            proof {
                assert(row.key_seq().take(k as int) =~= row.key_seq());
                assert forall|name: Seq<char>| #[trigger] means@.dom().contains(
                    name,
                ) <==> exists|r: int|
                    0 <= r < i + 1 && (#[trigger] all[r])@.dom().contains(name) by {
                    if row.key_seq().contains(name) {
                        assert(all[i as int]@.dom().contains(name));
                    }
                    if exists|r: int| 0 <= r < i + 1 && (#[trigger] all[r])@.dom().contains(name) {
                        let r = choose|r: int|
                            0 <= r < i + 1 && (#[trigger] all[r])@.dom().contains(name);
                        if r < i {
                            assert(before.dom().contains(name));
                        }
                    }
                }
            }
            i += 1;
        }
    }
    means
}

/// The values of a map, in order.
pub fn value_list<K: MapKey>(m: &KeyMap<K, Score>) -> (list: Vec<Score>)
    requires
        m.wf(),
    ensures
        list@ == m.value_seq(),
{
    let n: usize = m.len();
    let mut list: Vec<Score> = Vec::new();
    let mut i: usize = 0;
    while i < n
        invariant
            m.wf(),
            n == m.value_seq().len(),
            i <= n,
            list@ == m.value_seq().take(i as int),
        decreases n - i,
    {
        list.push(*m.value_at(i));
        assert(list@ =~= m.value_seq().take(i + 1));
        i += 1;
    }
    assert(list@ =~= m.value_seq());
    list
}

/// Evaluation results on a part of the validation set.
#[derive(Debug, Clone)]
pub struct ValsetEvaluation<Id: DataId> {
    /// Raw outputs by example.
    pub outputs_by_val_id: KeyMap<Id, Value>,
    /// Scores by example.
    pub scores_by_val_id: KeyMap<Id, Score>,
    /// Named objective scores by example, where there are any.
    pub objective_scores_by_val_id: Option<KeyMap<Id, ObjectiveScores>>,
    /// The mean of the scores; negative infinity where there is none.
    pub mean_score: Score,
    /// The mean of every objective over the examples that have it.
    pub mean_objectives: ObjectiveScores,
}

impl<Id: DataId> ValsetEvaluation<Id> {
    /// The maps are valid, and the means cover the objectives.
    pub open spec fn wf(&self) -> bool {
        &&& self.outputs_by_val_id.wf()
        &&& self.scores_by_val_id.wf()
        &&& (self.objective_scores_by_val_id matches Some(m) ==> all_rows_wf(m))
        &&& self.mean_objectives.wf()
        &&& (self.scores_by_val_id.value_seq().len() == 0 ==> self.mean_score == lowest())
        &&& forall|name: Seq<char>| #[trigger]
            self.mean_objectives@.dom().contains(name) <==> names_objective(
                rows_of(self.objective_scores_by_val_id),
                name,
            )
    }

    /// Whether the means are those that `arith` gave.
    pub open spec fn means_by<A: ScoreArithmetic>(&self, arith: A) -> bool {
        &&& self.scores_by_val_id.value_seq().len() > 0 ==> averages_to(
            arith,
            self.scores_by_val_id.value_seq(),
            self.mean_score,
        )
        &&& means_of(arith, rows_of(self.objective_scores_by_val_id), self.mean_objectives@)
    }

    /// The results with their means.
    pub fn assemble<A: ScoreArithmetic>(
        outputs: KeyMap<Id, Value>,
        scores: KeyMap<Id, Score>,
        objective_scores: Option<KeyMap<Id, ObjectiveScores>>,
        arith: &A,
    ) -> (evaluation: Self)
        requires
            outputs.wf(),
            scores.wf(),
            objective_scores matches Some(m) ==> all_rows_wf(m),
        ensures
            evaluation.wf(),
            evaluation.means_by(*arith),
            evaluation.outputs_by_val_id == outputs,
            evaluation.scores_by_val_id == scores,
            evaluation.objective_scores_by_val_id == objective_scores,
    {
        let mean_score = if scores.is_empty() {
            Score::neg_infinity()
        } else {
            let list = value_list(&scores);
            arith.mean(&list)
        };
        let means = mean_objectives(objective_scores.as_ref(), arith);
        ValsetEvaluation {
            outputs_by_val_id: outputs,
            scores_by_val_id: scores,
            objective_scores_by_val_id: objective_scores,
            mean_score,
            mean_objectives: means,
        }
    }

    /// The results for the examples `ids`, from lists in the same order.
    pub fn from_vecs<A: ScoreArithmetic>(
        ids: Vec<Id>,
        outputs: Vec<Value>,
        scores: Vec<Score>,
        objective_scores: Option<Vec<ObjectiveScores>>,
        arith: &A,
    ) -> (evaluation: Self)
        requires
            crate::optimizer::cache::rows_wf(objective_scores),
        ensures
            evaluation.wf(),
            evaluation.means_by(*arith),
            evaluation.outputs_by_val_id@ == zipped(
                views(ids@),
                outputs@,
                smaller(ids@.len(), outputs@.len()),
            ),
            evaluation.scores_by_val_id@ == zipped(
                views(ids@),
                scores@,
                smaller(ids@.len(), scores@.len()),
            ),
            match (objective_scores, evaluation.objective_scores_by_val_id) {
                (Some(rows), Some(m)) => m@ == zipped(
                    views(ids@),
                    rows@,
                    smaller(ids@.len(), rows@.len()),
                ),
                (None, None) => true,
                _ => false,
            },
    {
        let outputs_by_val_id = zip_map(&ids, outputs);
        let scores_by_val_id = zip_map(&ids, scores);
        let by_id = match objective_scores {
            Some(rows) => {
                let ghost all = rows@;
                let m = zip_map(&ids, rows);
                assert forall|i: int| 0 <= i < m.value_seq().len() implies (
                #[trigger] m.value_seq()[i]).wf() by {
                    assert(all.contains(m.value_seq()[i]));
                }
                Some(m)
            },
            None => None,
        };
        Self::assemble(outputs_by_val_id, scores_by_val_id, by_id, arith)
    }
}

} // verus!
