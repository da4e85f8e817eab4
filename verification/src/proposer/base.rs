//! What a proposer hands back.
use serde_json::Value;
use vstd::prelude::*;

use crate::keyed::{views, KeyMap};
use crate::optimizer::adapter::{candidate_copy, candidate_entries, Candidate};
use crate::optimizer::data_loader::DataId;
use crate::optimizer::engine::copy_indexes;
use crate::optimizer::full_eval::{copy_ids, copy_scores};
use crate::score::{sums_to, Score, ScoreArithmetic};
use crate::utils::programs::ProgramIdx;

verus! {

/// A proposed candidate, and how it came about.
#[derive(Debug)]
pub struct CandidateProposal<Id: DataId> {
    /// The proposed candidate.
    pub candidate: Candidate,
    /// The candidates that it was made from.
    pub parent_program_ids: Vec<ProgramIdx>,
    /// The examples that it was tried on, if it was.
    pub subsample_indices: Option<Vec<Id>>,
    /// The scores before: those of the parent on the examples, or of a merge
    /// the sum of each parent's scores.
    pub subsample_scores_before: Option<Vec<Score>>,
    /// The scores of the proposed candidate on the examples.
    pub subsample_scores_after: Option<Vec<Score>>,
    /// The name of the strategy.
    pub tag: String,
    /// Additional values for logs.
    pub metadata: KeyMap<String, Value>,
}

impl<Id: DataId> Clone for CandidateProposal<Id> {
    fn clone(&self) -> (p: Self)
        ensures
            candidate_entries(p.candidate) == candidate_entries(self.candidate),
            p.parent_program_ids@ == self.parent_program_ids@,
            match (self.subsample_indices, p.subsample_indices) {
                (Some(a), Some(b)) => views(b@) == views(a@),
                (None, None) => true,
                _ => false,
            },
            same_scores(p.subsample_scores_before, self.subsample_scores_before),
            same_scores(p.subsample_scores_after, self.subsample_scores_after),
            p.tag@ == self.tag@,
            p.metadata.key_seq() == self.metadata.key_seq(),
            p.metadata.value_seq() == self.metadata.value_seq(),
    {
        let metadata = self.metadata.clone();
        proof {
            let a = self.metadata.value_seq();
            let b = metadata.value_seq();
            assert forall|i: int| 0 <= i < a.len() implies a[i] == b[i] by {
                assert(cloned(a[i], b[i]));
            }
            assert(a =~= b);
        }
        CandidateProposal {
            candidate: candidate_copy(&self.candidate),
            parent_program_ids: copy_indexes(&self.parent_program_ids),
            subsample_indices: match &self.subsample_indices {
                Some(ids) => Some(copy_ids(ids.as_slice())),
                None => None,
            },
            subsample_scores_before: copy_optional(&self.subsample_scores_before),
            subsample_scores_after: copy_optional(&self.subsample_scores_after),
            tag: self.tag.clone(),
            metadata,
        }
    }
}

/// Whether the two have the same scores, or both none.
pub open spec fn same_scores(a: Option<Vec<Score>>, b: Option<Vec<Score>>) -> bool {
    match (a, b) {
        (Some(x), Some(y)) => x@ == y@,
        (None, None) => true,
        _ => false,
    }
}

fn copy_optional(scores: &Option<Vec<Score>>) -> (copy: Option<Vec<Score>>)
    ensures
        same_scores(copy, *scores),
{
    match scores {
        Some(list) => Some(copy_scores(list)),
        None => None,
    }
}

impl<Id: DataId> CandidateProposal<Id> {
    /// A proposal with only the required fields.
    pub fn new(candidate: Candidate, parent_program_ids: Vec<ProgramIdx>) -> (p: Self)
        ensures
            p.candidate == candidate,
            p.parent_program_ids == parent_program_ids,
            p.subsample_indices is None,
            p.subsample_scores_before is None,
            p.subsample_scores_after is None,
            p.tag@ == Seq::<char>::empty(),
            p.metadata.wf(),
            p.metadata@ == Map::<Seq<char>, Value>::empty(),
    {
        CandidateProposal {
            candidate,
            parent_program_ids,
            subsample_indices: None,
            subsample_scores_before: None,
            subsample_scores_after: None,
            tag: String::new(),
            metadata: KeyMap::new(),
        }
    }

    /// This proposal with the name of its strategy.
    pub fn with_tag(self, tag: &str) -> (p: Self)
        ensures
            p.tag@ == tag@,
            p == (CandidateProposal { tag: p.tag, ..self }),
    {
        CandidateProposal { tag: tag.to_owned(), ..self }
    }

    /// This proposal with the examples that it was tried on and the scores.
    pub fn with_subsample(
        self,
        indices: Vec<Id>,
        scores_before: Vec<Score>,
        scores_after: Vec<Score>,
    ) -> (p: Self)
        ensures
            p == (CandidateProposal {
                subsample_indices: Some(indices),
                subsample_scores_before: Some(scores_before),
                subsample_scores_after: Some(scores_after),
                ..self
            }),
    {
        CandidateProposal {
            subsample_indices: Some(indices),
            subsample_scores_before: Some(scores_before),
            subsample_scores_after: Some(scores_after),
            ..self
        }
    }

    /// This proposal with one more value for logs.
    pub fn with_metadata(self, key: &str, value: Value) -> (p: Self)
        requires
            self.metadata.wf(),
        ensures
            p.metadata.wf(),
            p.metadata@ == self.metadata@.insert(key@, value),
            p == (CandidateProposal { metadata: p.metadata, ..self }),
    {
        let mut p = self;
        p.metadata.insert(key.to_owned(), value);
        p
    }

    /// Whether the sum of the scores after is above that of the scores before;
    /// nothing where there are no scores.
    pub fn shows_improvement<A: ScoreArithmetic>(&self, arith: &A) -> (r: Option<bool>)
        ensures
            match (self.subsample_scores_before, self.subsample_scores_after) {
                (Some(before), Some(after)) => exists|b: Score, a: Score|
                    #[trigger] sums_to(*arith, before@, b) && #[trigger] sums_to(*arith, after@, a)
                        && r == Some(a.above(b)),
                _ => r is None,
            },
    {
        match (&self.subsample_scores_before, &self.subsample_scores_after) {
            (Some(before), Some(after)) => {
                let sum_before = arith.sum(before);
                let sum_after = arith.sum(after);
                assert(sums_to(*arith, before@, sum_before));
                assert(sums_to(*arith, after@, sum_after));
                Some(sum_after.exceeds(&sum_before))
            },
            _ => None,
        }
    }
}

} // verus!
