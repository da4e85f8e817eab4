//! Candidates, and what the evaluation of one on a batch gives back.
use indexmap::IndexMap;
use vstd::prelude::*;

use crate::error::{GEPAError, Result};
use crate::keyed::KeyMap;
use crate::score::{Score, SIGN_BIT};
use crate::text::{decimal, decimal_text};

verus! {

/// `indexmap::IndexMap`: [`candidate_entries`] names what a candidate holds.
#[verifier::external_type_specification]
#[verifier::external_body]
#[verifier::reject_recursive_types(K)]
#[verifier::reject_recursive_types(V)]
#[verifier::reject_recursive_types(S)]
pub struct ExIndexMap<K, V, S>(IndexMap<K, V, S>);

/// A program candidate: a mapping from component name to component text, in
/// the order in which the components were added.
pub type Candidate = IndexMap<String, String>;

/// The components of a candidate: names and texts, in order.
pub uninterp spec fn candidate_entries(c: Candidate) -> Seq<(Seq<char>, Seq<char>)>;

/// No name occurs twice.
pub open spec fn distinct_names(entries: Seq<(Seq<char>, Seq<char>)>) -> bool {
    forall|i: int, j: int|
        0 <= i < j < entries.len() ==> (#[trigger] entries[i]).0 != (#[trigger] entries[j]).0
}

/// The position of the component `name`.
pub open spec fn entry_position(entries: Seq<(Seq<char>, Seq<char>)>, name: Seq<char>) -> Option<int>
    decreases entries.len(),
{
    if entries.len() == 0 {
        None
    } else {
        match entry_position(entries.drop_last(), name) {
            Some(i) => Some(i),
            None => if entries.last().0 == name {
                Some(entries.len() - 1)
            } else {
                None
            },
        }
    }
}

/// The text of the component `name`.
pub open spec fn component_text(entries: Seq<(Seq<char>, Seq<char>)>, name: Seq<char>) -> Option<
    Seq<char>,
> {
    match entry_position(entries, name) {
        Some(i) => Some(entries[i].1),
        None => None,
    }
}

/// The components after the component `name` was given `text`: a known one
/// keeps its place, a new one comes last.
pub open spec fn with_component(
    entries: Seq<(Seq<char>, Seq<char>)>,
    name: Seq<char>,
    text: Seq<char>,
) -> Seq<(Seq<char>, Seq<char>)> {
    match entry_position(entries, name) {
        Some(i) => entries.update(i, (name, text)),
        None => entries.push((name, text)),
    }
}

/// A position found holds the name, and one is found where the name occurs.
pub proof fn lemma_entry_position(entries: Seq<(Seq<char>, Seq<char>)>, name: Seq<char>)
    ensures
        match entry_position(entries, name) {
            Some(i) => 0 <= i < entries.len() && entries[i].0 == name && forall|j: int|
                0 <= j < i ==> (#[trigger] entries[j]).0 != name,
            None => forall|j: int| 0 <= j < entries.len() ==> (#[trigger] entries[j]).0 != name,
        },
    decreases entries.len(),
{
    if entries.len() > 0 {
        let front = entries.drop_last();
        lemma_entry_position(front, name);
        assert forall|j: int| 0 <= j < front.len() implies front[j] == entries[j] by {}
        if entry_position(front, name) is None {
            assert forall|j: int| 0 <= j < front.len() implies (#[trigger] entries[j]).0
                != name by {
                assert(front[j].0 != name);
            }
        } else {
            let i = entry_position(front, name)->0;
            assert forall|j: int| 0 <= j < i implies (#[trigger] entries[j]).0 != name by {
                assert(front[j].0 != name);
            }
        }
    }
}

/// `IndexMap::new`: a map without entries.
#[verifier::external_body]
pub(crate) fn candidate_empty() -> (r: Candidate)
    ensures
        candidate_entries(r) == Seq::<(Seq<char>, Seq<char>)>::empty(),
{
    Candidate::new()
}

/// `IndexMap::get`: the value stored for the key, if it is present.
#[verifier::external_body]
pub(crate) fn candidate_get(c: &Candidate, name: &str) -> (r: Option<String>)
    ensures
        match r {
            Some(text) => component_text(candidate_entries(*c), name@) == Some(text@),
            None => component_text(candidate_entries(*c), name@) is None,
        },
{
    c.get(name).cloned()
}

/// `IndexMap::insert`: the value of a known key is replaced in its place, a new
/// key is inserted last.
#[verifier::external_body]
pub(crate) fn candidate_set(c: &mut Candidate, name: String, text: String)
    ensures
        candidate_entries(*final(c)) == with_component(candidate_entries(*old(c)), name@, text@),
{
    c.insert(name, text);
}

/// `IndexMap::clone`: a map with the same entries in the same order.
#[verifier::external_body]
pub(crate) fn candidate_copy(c: &Candidate) -> (r: Candidate)
    ensures
        candidate_entries(r) == candidate_entries(*c),
{
    c.clone()
}

/// The entries of an `IndexMap`, which its `iter` yields in order. No key
/// occurs twice.
#[verifier::external_body]
pub(crate) fn candidate_pairs(c: &Candidate) -> (r: Vec<(String, String)>)
    ensures
        pair_views(r@) == candidate_entries(*c),
        distinct_names(pair_views(r@)),
{
    c.iter().map(|(name, text)| (name.clone(), text.clone())).collect()
}

/// The views of a list of pairs of strings.
pub open spec fn pair_views(pairs: Seq<(String, String)>) -> Seq<(Seq<char>, Seq<char>)> {
    Seq::new(pairs.len(), |i: int| (pairs[i].0@, pairs[i].1@))
}

/// The text of the component `name`, or the empty text.
pub open spec fn text_or_empty(entries: Seq<(Seq<char>, Seq<char>)>, name: Seq<char>) -> Seq<char> {
    match component_text(entries, name) {
        Some(text) => text,
        None => Seq::empty(),
    }
}

/// The text of the component `name`, or the empty text.
pub(crate) fn text_in(candidate: &Candidate, name: &str) -> (text: String)
    ensures
        text@ == text_or_empty(candidate_entries(*candidate), name@),
{
    match candidate_get(candidate, name) {
        Some(text) => text,
        None => String::new(),
    }
}

/// The named objective scores of one example or one program.
pub type ObjectiveScores = KeyMap<String, Score>;

/// The result of evaluating a candidate on a batch of data.
///
/// `T` is the type of the per-example trajectories and `RO` that of the raw
/// outputs; both are opaque to the optimizer.
#[derive(Debug, Clone)]
pub struct EvaluationBatch<T, RO> {
    /// Raw per-example outputs produced by executing the candidate.
    pub outputs: Vec<RO>,
    /// Per-example scores. Higher is better.
    pub scores: Vec<Score>,
    /// Per-example execution traces, where the evaluation captured them.
    pub trajectories: Option<Vec<T>>,
    /// Per-example named objective scores, where the evaluator has any.
    pub objective_scores: Option<Vec<ObjectiveScores>>,
}

/// The first position at or after `i` whose score is not finite.
pub open spec fn first_not_finite(scores: Seq<Score>, i: int) -> Option<int>
    decreases scores.len() - i,
{
    if i < 0 || i >= scores.len() {
        None
    } else if !scores[i].finite() {
        Some(i)
    } else {
        first_not_finite(scores, i + 1)
    }
}

/// How a score that is not finite is written.
pub open spec fn not_finite_text(s: Score) -> Seq<char> {
    if s.nan() {
        "NaN"@
    } else if s.bits >= SIGN_BIT {
        "-inf"@
    } else {
        "inf"@
    }
}

/// What is wrong with the first row at or after `i` that holds an objective
/// score that is not finite.
pub open spec fn row_fault(rows: Seq<ObjectiveScores>, i: int) -> Option<Seq<char>>
    decreases rows.len() - i,
{
    if i < 0 || i >= rows.len() {
        None
    } else {
        match first_not_finite(rows[i].value_seq(), 0) {
            Some(j) => Some(
                "adapter returned non-finite objective score at index "@ + decimal_text(i as nat)
                    + " for '"@ + rows[i].key_seq()[j] + "': "@ + not_finite_text(
                    rows[i].value_seq()[j],
                ),
            ),
            None => row_fault(rows, i + 1),
        }
    }
}

/// `adapter returned {n} {what} for a batch of {expected}`.
pub open spec fn misaligned_text(n: nat, what: Seq<char>, expected: nat) -> Seq<char> {
    "adapter returned "@ + decimal_text(n) + what + " for a batch of "@ + decimal_text(expected)
}

impl<T, RO> EvaluationBatch<T, RO> {
    /// Every row of objective scores is a map.
    pub open spec fn wf(&self) -> bool {
        match self.objective_scores {
            Some(rows) => forall|i: int| 0 <= i < rows@.len() ==> (#[trigger] rows@[i]).wf(),
            None => true,
        }
    }

    /// What is wrong with this batch as the result for `expected` examples.
    pub open spec fn fault(&self, expected: nat, require_trajectories: bool) -> Option<Seq<char>> {
        if self.outputs@.len() != expected {
            Some(misaligned_text(self.outputs@.len(), " outputs"@, expected))
        } else if self.scores@.len() != expected {
            Some(misaligned_text(self.scores@.len(), " scores"@, expected))
        } else if first_not_finite(self.scores@, 0) is Some {
            let i = first_not_finite(self.scores@, 0)->0;
            Some(
                "adapter returned non-finite score at index "@ + decimal_text(i as nat) + ": "@
                    + not_finite_text(self.scores@[i]),
            )
        } else if self.trajectories is Some && self.trajectories->0@.len() != expected {
            Some(misaligned_text(self.trajectories->0@.len(), " trajectories"@, expected))
        } else if self.trajectories is None && require_trajectories {
            Some("adapter did not return trajectories for a trace-capturing evaluation"@)
        } else if self.objective_scores is Some {
            let rows = self.objective_scores->0@;
            if rows.len() != expected {
                Some(misaligned_text(rows.len(), " objective-score rows"@, expected))
            } else {
                row_fault(rows, 0)
            }
        } else {
            None
        }
    }

    /// A batch with only the required fields.
    pub fn new(outputs: Vec<RO>, scores: Vec<Score>) -> (batch: Self)
        ensures
            batch.outputs == outputs,
            batch.scores == scores,
            batch.trajectories is None,
            batch.objective_scores is None,
    {
        EvaluationBatch { outputs, scores, trajectories: None, objective_scores: None }
    }

    /// This batch with execution traces.
    pub fn with_trajectories(self, trajectories: Vec<T>) -> (batch: Self)
        ensures
            batch.outputs == self.outputs,
            batch.scores == self.scores,
            batch.trajectories == Some(trajectories),
            batch.objective_scores == self.objective_scores,
    {
        EvaluationBatch {
            outputs: self.outputs,
            scores: self.scores,
            trajectories: Some(trajectories),
            objective_scores: self.objective_scores,
        }
    }

    /// This batch with per-example objective breakdowns.
    pub fn with_objective_scores(self, objective_scores: Vec<ObjectiveScores>) -> (batch: Self)
        ensures
            batch.outputs == self.outputs,
            batch.scores == self.scores,
            batch.trajectories == self.trajectories,
            batch.objective_scores == Some(objective_scores),
    {
        EvaluationBatch {
            outputs: self.outputs,
            scores: self.scores,
            trajectories: self.trajectories,
            objective_scores: Some(objective_scores),
        }
    }

    /// Check that every list is aligned with the requested batch size and that
    /// every score is finite.
    ///
    /// # Errors
    /// An evaluation error that says what is wrong first.
    pub fn validate_lengths(&self, expected_len: usize, require_trajectories: bool) -> (r: Result<
        (),
    >)
        requires
            self.wf(),
        ensures
            match r {
                Ok(()) => self.fault(expected_len as nat, require_trajectories) is None,
                Err(e) => e matches GEPAError::Evaluation(text) && self.fault(
                    expected_len as nat,
                    require_trajectories,
                ) == Some(text@),
            },
    {
        if self.outputs.len() != expected_len {
            return Err(misaligned(self.outputs.len(), " outputs", expected_len));
        }
        if self.scores.len() != expected_len {
            return Err(misaligned(self.scores.len(), " scores", expected_len));
        }
        if let Some(i) = find_not_finite(&self.scores) {
            let mut text = "adapter returned non-finite score at index ".to_owned();
            text.append(decimal(i as u64).as_str());
            text.append(": ");
            text.append(write_not_finite(&self.scores[i]));
            return Err(GEPAError::Evaluation(text));
        }
        match &self.trajectories {
            Some(trajectories) => {
                if trajectories.len() != expected_len {
                    return Err(misaligned(trajectories.len(), " trajectories", expected_len));
                }
            },
            None => {
                if require_trajectories {
                    return Err(
                        GEPAError::Evaluation(
                            "adapter did not return trajectories for a trace-capturing evaluation".to_owned(),
                        ),
                    );
                }
            },
        }
        if let Some(rows) = &self.objective_scores {
            if rows.len() != expected_len {
                return Err(misaligned(rows.len(), " objective-score rows", expected_len));
            }
            let mut i: usize = 0;
            while i < rows.len()
                invariant
                    i <= rows.len(),
                    forall|k: int| 0 <= k < rows@.len() ==> (#[trigger] rows@[k]).wf(),
                    row_fault(rows@, 0) == row_fault(rows@, i as int),
                    row_fault(rows@, 0) == self.fault(expected_len as nat, require_trajectories),
                decreases rows.len() - i,
            {
                let row = &rows[i];
                assert(rows@[i as int].wf());
                let mut j: usize = 0;
                while j < row.len()
                    invariant
                        i < rows@.len(),
                        rows@[i as int] == *row,
                        row.wf(),
                        j <= row.value_seq().len(),
                        first_not_finite(row.value_seq(), 0) == first_not_finite(
                            row.value_seq(),
                            j as int,
                        ),
                        row_fault(rows@, 0) == row_fault(rows@, i as int),
                        row_fault(rows@, 0) == self.fault(
                            expected_len as nat,
                            require_trajectories,
                        ),
                    decreases row.value_seq().len() - j,
                {
                    let score = row.value_at(j);
                    if !score.is_finite() {
                        let mut text =
                            "adapter returned non-finite objective score at index ".to_owned();
                        text.append(decimal(i as u64).as_str());
                        text.append(" for '");
                        text.append(row.key_at(j).as_str());
                        text.append("': ");
                        text.append(write_not_finite(score));
                        assert(first_not_finite(row.value_seq(), 0) == Some(j as int));
                        assert(row_fault(rows@, i as int) == Some(text@));
                        return Err(GEPAError::Evaluation(text));
                    }
                    j += 1;
                }
                assert(first_not_finite(row.value_seq(), j as int) is None);
                i += 1;
            }
        }
        Ok(())
    }
}

fn misaligned(n: usize, what: &str, expected: usize) -> (e: GEPAError)
    ensures
        e matches GEPAError::Evaluation(text) && text@ == misaligned_text(
            n as nat,
            what@,
            expected as nat,
        ),
{
    let mut text = "adapter returned ".to_owned();
    text.append(decimal(n as u64).as_str());
    text.append(what);
    text.append(" for a batch of ");
    text.append(decimal(expected as u64).as_str());
    GEPAError::Evaluation(text)
}

fn write_not_finite(s: &Score) -> (text: &'static str)
    ensures
        text@ == not_finite_text(*s),
{
    if s.is_nan() {
        "NaN"
    } else if s.bits >= SIGN_BIT {
        "-inf"
    } else {
        "inf"
    }
}

fn find_not_finite(scores: &Vec<Score>) -> (r: Option<usize>)
    ensures
        match r {
            Some(i) => i < scores@.len() && first_not_finite(scores@, 0) == Some(i as int),
            None => first_not_finite(scores@, 0) is None,
        },
{
    let mut i: usize = 0;
    while i < scores.len()
        invariant
            i <= scores.len(),
            first_not_finite(scores@, 0) == first_not_finite(scores@, i as int),
        decreases scores.len() - i,
    {
        if !scores[i].is_finite() {
            return Some(i);
        }
        i += 1;
    }
    None
}

/// Setting a component gives that component the text and leaves the others.
pub(crate) proof fn lemma_with_component(
    entries: Seq<(Seq<char>, Seq<char>)>,
    name: Seq<char>,
    text: Seq<char>,
    other: Seq<char>,
)
    ensures
        component_text(with_component(entries, name, text), name) == Some(text),
        other != name ==> component_text(with_component(entries, name, text), other)
            == component_text(entries, other),
{
    let after = with_component(entries, name, text);
    lemma_entry_position(entries, name);
    lemma_entry_position(entries, other);
    lemma_entry_position(after, name);
    lemma_entry_position(after, other);
    assert forall|j: int| 0 <= j < entries.len() implies (#[trigger] after[j]).0
        == entries[j].0 by {}
    if let Some(i) = entry_position(after, name) {
        if i < entries.len() {
            assert(entries[i].0 == name);
            let k = entry_position(entries, name)->0;
            assert(after[k].0 == name);
            assert(k == i);
        }
    } else {
        if entry_position(entries, name) is None {
            assert(after[entries.len() as int].0 == name);
        } else {
            assert(after[entry_position(entries, name)->0].0 == name);
        }
    }
    if other != name {
        match entry_position(entries, other) {
            Some(i) => {
                assert(after[i].0 == other);
                assert(entry_position(after, other) == Some(i));
            },
            None => {
                assert(entry_position(after, other) is None);
            },
        }
    }
}

} // verus!
