//! Which validation examples a candidate is evaluated on, and which candidate
//! is the best.
use vstd::prelude::*;

use crate::error::{GEPAError, Result};
use crate::keyed::views;
use crate::optimizer::data_loader::DataId;
use crate::optimizer::full_eval::copy_ids;
use crate::optimizer::state::GEPAState;
use crate::score::{lowest, Score};
use crate::text::{decimal, decimal_text};
use crate::utils::programs::ProgramIdx;

verus! {

/// Chooses the validation examples and names the best candidate.
pub trait EvalPolicy<Id: DataId>: Send + Sync {
    /// The validation examples that a candidate is evaluated on.
    fn get_eval_ids(
        &self,
        all_val_ids: &[Id],
        state: &GEPAState<Id>,
        target_program_idx: Option<ProgramIdx>,
    ) -> Vec<Id>;

    /// Whether `r` is what the policy may give as the best candidate: anything,
    /// unless an impl says more.
    open spec fn may_judge(&self, state: GEPAState<Id>, r: Result<ProgramIdx>) -> bool {
        true
    }

    /// The index of the best candidate.
    ///
    /// # Errors
    /// An error where there is no candidate.
    fn get_best_program(&self, state: &GEPAState<Id>) -> (r: Result<ProgramIdx>)
        requires
            state.maps_wf(),
            state.prog_candidate_val_subscores@.len() <= state.prog_candidate_mean_scores@.len(),
        ensures
            state.program_candidates@.len() == 0 ==> r is Err,
            self.may_judge(*state, r),
    ;

    /// The score of a candidate on the validation set.
    ///
    /// # Errors
    /// An error where there is no such candidate.
    fn get_valset_score(&self, program_idx: ProgramIdx, state: &GEPAState<Id>) -> (r: Result<Score>)
        requires
            state.maps_wf(),
            state.prog_candidate_val_subscores@.len() <= state.prog_candidate_mean_scores@.len(),
        ensures
            program_idx >= state.prog_candidate_val_subscores@.len() ==> r is Err,
    ;
}

/// The number of examples that candidate `i` was scored on.
pub open spec fn coverage_of<Id: DataId>(state: GEPAState<Id>, i: int) -> nat {
    state.prog_candidate_val_subscores@[i]@.dom().len()
}

/// Whether a candidate with this mean score and coverage is better.
pub open spec fn better(score: Score, coverage: nat, than: Score, than_coverage: nat) -> bool {
    score.above(than) || (score.level(than) && coverage > than_coverage)
}

/// The best of the first `n` candidates, with its score and coverage.
pub open spec fn best_program<Id: DataId>(state: GEPAState<Id>, n: int) -> (int, Score, nat)
    decreases n,
{
    if n <= 0 {
        (0, lowest(), 0)
    } else {
        let (idx, score, coverage) = best_program(state, n - 1);
        if better(state.mean_of(n - 1), coverage_of(state, n - 1), score, coverage) {
            (n - 1, state.mean_of(n - 1), coverage_of(state, n - 1))
        } else {
            (idx, score, coverage)
        }
    }
}

/// Every candidate is evaluated on the whole validation set, and the one with
/// the best mean score is the best; of equal ones, the one that was scored on
/// more examples.
pub struct FullEvalPolicy;

impl<Id: DataId> EvalPolicy<Id> for FullEvalPolicy {
    fn get_eval_ids(
        &self,
        all_val_ids: &[Id],
        state: &GEPAState<Id>,
        target_program_idx: Option<ProgramIdx>,
    ) -> (ids: Vec<Id>)
        ensures
            views(ids@) == views(all_val_ids@),
    {
        copy_ids(all_val_ids)
    }

    /// The candidate that none is better than.
    open spec fn may_judge(&self, state: GEPAState<Id>, r: Result<ProgramIdx>) -> bool {
        match r {
            Ok(idx) => {
                let (best, _, _) = best_program(
                    state,
                    state.prog_candidate_val_subscores@.len() as int,
                );
                state.program_candidates@.len() > 0 && idx == best
            },
            Err(e) => e is NoCandidates && state.program_candidates@.len() == 0,
        }
    }

    fn get_best_program(&self, state: &GEPAState<Id>) -> (r: Result<ProgramIdx>) {
        if state.program_candidates.len() == 0 {
            return Err(GEPAError::NoCandidates);
        }
        let n: usize = state.prog_candidate_val_subscores.len();
        let mut best_idx: usize = 0;
        let mut best_score = Score::neg_infinity();
        let mut best_coverage: usize = 0;
        let mut i: usize = 0;
        while i < n
            invariant
                state.maps_wf(),
                n == state.prog_candidate_val_subscores@.len(),
                n <= state.prog_candidate_mean_scores@.len(),
                i <= n,
                best_program(*state, i as int) == (
                    best_idx as int,
                    best_score,
                    best_coverage as nat,
                ),
            decreases n - i,
        {
            let (avg, coverage) = state.get_program_average_val_subset(i);
            if avg.exceeds(&best_score) || (avg.equals(&best_score) && coverage > best_coverage) {
                best_score = avg;
                best_idx = i;
                best_coverage = coverage;
            }
            i += 1;
        }
        Ok(best_idx)
    }

    fn get_valset_score(&self, program_idx: ProgramIdx, state: &GEPAState<Id>) -> (r: Result<Score>)
        ensures
            match r {
                Ok(score) => program_idx < state.prog_candidate_val_subscores@.len() && score
                    == state.mean_of(program_idx as int),
                Err(e) => {
                    &&& program_idx >= state.prog_candidate_val_subscores@.len()
                    &&& e matches GEPAError::Config(text)
                    &&& text@ == "program_idx "@ + decimal_text(program_idx as nat)
                        + " out of range (len="@ + decimal_text(
                        state.prog_candidate_val_subscores@.len(),
                    ) + ")"@
                },
            },
    {
        if program_idx >= state.prog_candidate_val_subscores.len() {
            let mut text = "program_idx ".to_owned();
            text.append(decimal(program_idx as u64).as_str());
            text.append(" out of range (len=");
            text.append(decimal(state.prog_candidate_val_subscores.len() as u64).as_str());
            text.append(")");
            return Err(GEPAError::Config(text));
        }
        Ok(state.get_program_average_val_subset(program_idx).0)
    }
}

/// No candidate has a better mean score than the best one, and none with the
/// same mean score was scored on more examples.
pub proof fn best_program_is_unbeaten<Id: DataId>(state: GEPAState<Id>, n: int)
    requires
        1 <= n <= state.prog_candidate_val_subscores@.len(),
        forall|i: int| 0 <= i < n ==> !(#[trigger] state.mean_of(i)).nan(),
        state.mean_of(0).above(lowest()),
    ensures
        ({
            let (best, score, coverage) = best_program(state, n);
            &&& 0 <= best < n
            &&& score == state.mean_of(best)
            &&& coverage == coverage_of(state, best)
            &&& forall|i: int|
                0 <= i < n ==> !better(
                    #[trigger] state.mean_of(i),
                    coverage_of(state, i),
                    score,
                    coverage,
                )
        }),
    decreases n,
{
    if n > 1 {
        best_program_is_unbeaten(state, n - 1);
        let (b0, s0, c0) = best_program(state, n - 1);
        assert(!s0.nan()) by {
            assert(!state.mean_of(b0).nan());
        }
    } else {
        let (b0, s0, c0) = best_program(state, 0);
        assert(better(state.mean_of(0), coverage_of(state, 0), s0, c0));
    }
}

} // verus!
