//! What messages tell.
use serde_json::Value;
use vstd::prelude::*;

use crate::adapters::process::missing_key_text;
use crate::error::GEPAError;
use crate::keyed::KeyMap;
use crate::laws::evaluations::scores_that_are_not_finite_are_found;
use crate::laws::prompts::a_part_occurs;
use crate::optimizer::adapter::{
    first_not_finite, misaligned_text, not_finite_text, row_fault, EvaluationBatch,
    ObjectiveScores,
};
use crate::optimizer::data_loader::DataId;
use crate::optimizer::full_eval::first_gap;
use crate::optimizer::schema::unsupported_text;
use crate::score::Score;
use crate::text::{decimal_text, occurs};

verus! {

proof fn lemma_behind(head: Seq<char>, tail: Seq<char>)
    ensures
        occurs(head + tail, tail),
{
    assert(head + tail =~= head + tail + Seq::<char>::empty());
    a_part_occurs(head, tail, Seq::empty());
}

/// The message of an error shows what the error carries.
pub proof fn errors_show_what_they_carry(e: GEPAError, text: Seq<char>)
    requires
        e.reads(text),
    ensures
        e matches GEPAError::AdapterEvaluation(s) ==> occurs(text, s@),
        e matches GEPAError::AdapterReflectiveDataset(s) ==> occurs(text, s@),
        e matches GEPAError::AdapterError(s) ==> occurs(text, s@),
        e matches GEPAError::Evaluation(s) ==> occurs(text, s@),
        e matches GEPAError::ProposalFailed(s) ==> occurs(text, s@),
        e matches GEPAError::Proposal(s) ==> occurs(text, s@),
        e matches GEPAError::LMError(s) ==> occurs(text, s@),
        e matches GEPAError::LmApi(s) ==> occurs(text, s@),
        e matches GEPAError::RetriesExhausted(s) ==> occurs(text, s@),
        e matches GEPAError::EmptyDataset(s) ==> occurs(text, s@),
        e matches GEPAError::Config(s) ==> occurs(text, s@),
        e matches GEPAError::Http(failure) ==> occurs(text, failure.message@),
{
    match e {
        GEPAError::AdapterEvaluation(s) => lemma_behind("Adapter evaluation failed: "@, s@),
        GEPAError::AdapterReflectiveDataset(s) => lemma_behind(
            "Adapter reflective dataset build failed: "@,
            s@,
        ),
        GEPAError::AdapterError(s) => lemma_behind("Adapter error: "@, s@),
        GEPAError::Evaluation(s) => lemma_behind("Evaluation error: "@, s@),
        GEPAError::ProposalFailed(s) => lemma_behind("Proposal failed: "@, s@),
        GEPAError::Proposal(s) => lemma_behind("Proposal error: "@, s@),
        GEPAError::LMError(s) => lemma_behind("LM call failed: "@, s@),
        GEPAError::LmApi(s) => lemma_behind("LM API error: "@, s@),
        GEPAError::RetriesExhausted(s) => lemma_behind("LM retries exhausted: "@, s@),
        GEPAError::EmptyDataset(s) => lemma_behind("Empty dataset: "@, s@),
        GEPAError::Config(s) => lemma_behind("Configuration error: "@, s@),
        GEPAError::Http(failure) => lemma_behind("HTTP error: "@, failure.message@),
        _ => {},
    }
}

/// What is said of results with a gap names the first example that lacks
/// something.
pub proof fn a_gap_names_the_first_incomplete_example<Id: DataId>(
    ids: Seq<Id::V>,
    outputs: Map<Id::V, Value>,
    scores: Map<Id::V, Score>,
    i: int,
    k: int,
)
    requires
        0 <= i <= k < ids.len(),
        !(outputs.dom().contains(ids[k]) && scores.dom().contains(ids[k])),
        forall|j: int|
            i <= j < k ==> outputs.dom().contains(#[trigger] ids[j]) && scores.dom().contains(
                ids[j],
            ),
    ensures
        first_gap::<Id>(ids, outputs, scores, None, i) matches Some(text) && occurs(
            text,
            Id::debug_spec(ids[k]),
        ),
    decreases k - i,
{
    if i < k {
        a_gap_names_the_first_incomplete_example::<Id>(ids, outputs, scores, i + 1, k);
    } else if !outputs.dom().contains(ids[k]) {
        lemma_behind("missing output for validation id "@, Id::debug_spec(ids[k]));
    } else {
        lemma_behind("missing score for validation id "@, Id::debug_spec(ids[k]));
    }
}

/// What is said of lists of the wrong length gives both numbers.
pub proof fn a_misfit_is_told_in_numbers(n: nat, what: Seq<char>, expected: nat)
    ensures
        occurs(misaligned_text(n, what, expected), decimal_text(n)),
        occurs(misaligned_text(n, what, expected), what),
        occurs(misaligned_text(n, what, expected), decimal_text(expected)),
{
    let head = "adapter returned "@;
    let mid = " for a batch of "@;
    let a = decimal_text(n);
    let b = decimal_text(expected);
    let whole = misaligned_text(n, what, expected);
    assert(whole =~= head + a + (what + mid + b));
    a_part_occurs(head, a, what + mid + b);
    assert(whole =~= (head + a) + what + (mid + b));
    a_part_occurs(head + a, what, mid + b);
    assert(whole =~= (head + a + what + mid) + b);
    lemma_behind(head + a + what + mid, b);
}

/// What is said of a score that is not finite gives the first place of one.
pub proof fn a_score_that_is_not_finite_is_told_with_its_place<T, RO>(
    batch: EvaluationBatch<T, RO>,
    expected: nat,
    k: int,
)
    requires
        batch.outputs@.len() == expected,
        batch.scores@.len() == expected,
        0 <= k < expected,
        !batch.scores@[k].finite(),
        forall|j: int| 0 <= j < k ==> (#[trigger] batch.scores@[j]).finite(),
    ensures
        batch.fault(expected, false) matches Some(text) && occurs(text, decimal_text(k as nat))
            && occurs(text, not_finite_text(batch.scores@[k])),
{
    scores_that_are_not_finite_are_found(batch.scores@, 0);
    assert(first_not_finite(batch.scores@, 0) == Some(k));
    let head = "adapter returned non-finite score at index "@;
    let a = decimal_text(k as nat);
    let b = not_finite_text(batch.scores@[k]);
    let whole = head + a + ": "@ + b;
    assert(whole =~= head + a + (": "@ + b));
    a_part_occurs(head, a, ": "@ + b);
    lemma_behind(head + a + ": "@, b);
}

/// What is said of an objective score that is not finite names the row and the
/// objective.
pub proof fn an_objective_that_is_not_finite_is_named(rows: Seq<ObjectiveScores>, i: int, j: int)
    requires
        0 <= i < rows.len(),
        first_not_finite(rows[i].value_seq(), 0) == Some(j),
    ensures
        row_fault(rows, i) matches Some(text) && occurs(text, decimal_text(i as nat)) && occurs(
            text,
            rows[i].key_seq()[j],
        ),
{
    let head = "adapter returned non-finite objective score at index "@;
    let a = decimal_text(i as nat);
    let name = rows[i].key_seq()[j];
    let b = not_finite_text(rows[i].value_seq()[j]);
    let whole = head + a + " for '"@ + name + "': "@ + b;
    assert(whole =~= head + a + (" for '"@ + name + "': "@ + b));
    a_part_occurs(head, a, " for '"@ + name + "': "@ + b);
    assert(whole =~= (head + a + " for '"@) + name + ("': "@ + b));
    a_part_occurs(head + a + " for '"@, name, "': "@ + b);
}

/// What is said of a version that is not supported gives it and the greatest that
/// is.
pub proof fn an_unsupported_version_is_told(what: Seq<char>, version: u32, supported: u32)
    ensures
        occurs(unsupported_text(what, version, supported), what),
        occurs(unsupported_text(what, version, supported), decimal_text(version as nat)),
        occurs(unsupported_text(what, version, supported), decimal_text(supported as nat)),
{
    let head = "Unsupported "@;
    let mid = " schema version "@;
    let last = "; maximum supported is "@;
    let a = decimal_text(version as nat);
    let b = decimal_text(supported as nat);
    let whole = unsupported_text(what, version, supported);
    assert(whole =~= head + what + (mid + a + last + b));
    a_part_occurs(head, what, mid + a + last + b);
    assert(whole =~= (head + what + mid) + a + (last + b));
    a_part_occurs(head + what + mid, a, last + b);
    assert(whole =~= (head + what + mid + a + last) + b);
    lemma_behind(head + what + mid + a + last, b);
}

/// What is said of a metric that is missing names it.
pub proof fn a_missing_metric_is_named(
    what: Seq<char>,
    key: Seq<char>,
    metrics: KeyMap<String, Score>,
)
    ensures
        occurs(missing_key_text(what, key, metrics), key),
{
    let whole = missing_key_text(what, key, metrics);
    let head = what + " key '"@;
    let tail = whole.skip((head.len() + key.len()) as int);
    assert(whole =~= head + key + tail);
    a_part_occurs(head, key, tail);
}

} // verus!
