//! What observers of a run are told.
use vstd::prelude::*;

use crate::utils::programs::ProgramIdx;

verus! {

/// An evaluation is about to start.
#[derive(Debug, Clone)]
pub struct EvaluationStartEvent {
    /// The iteration.
    pub iteration: usize,
    /// The candidate, if it has an index already.
    pub candidate_idx: Option<ProgramIdx>,
    /// The number of examples.
    pub batch_size: usize,
    /// Whether traces are captured.
    pub capture_traces: bool,
    /// The candidate's parents.
    pub parent_ids: Vec<ProgramIdx>,
    /// Whether it is the seed.
    pub is_seed_candidate: bool,
}

/// A merge was accepted.
#[derive(Debug, Clone)]
pub struct MergeAcceptedEvent {
    /// The iteration.
    pub iteration: usize,
    /// The index of the merged candidate.
    pub new_candidate_idx: ProgramIdx,
    /// Its parents.
    pub parent_ids: Vec<ProgramIdx>,
}

/// A merge was rejected.
#[derive(Debug, Clone)]
pub struct MergeRejectedEvent {
    /// The iteration.
    pub iteration: usize,
    /// The parents of the merged candidate.
    pub parent_ids: Vec<ProgramIdx>,
    /// Why it was rejected.
    pub reason: String,
}

/// The Pareto front has changed.
#[derive(Debug, Clone)]
pub struct ParetoFrontUpdatedEvent {
    /// The iteration.
    pub iteration: usize,
    /// The candidates on the front.
    pub new_front: Vec<ProgramIdx>,
    /// The candidates that are no longer on it.
    pub displaced_candidates: Vec<ProgramIdx>,
}

/// The state was saved.
#[derive(Debug, Clone)]
pub struct StateSavedEvent {
    /// The iteration.
    pub iteration: usize,
    /// The directory.
    pub run_dir: Option<String>,
}

/// Evaluations were used.
#[derive(Debug, Clone, Copy, PartialEq, Eq, Structural)]
pub struct BudgetUpdatedEvent {
    /// The iteration.
    pub iteration: usize,
    /// The examples that were evaluated so far.
    pub metric_calls_used: usize,
    /// The examples that were evaluated now.
    pub metric_calls_delta: usize,
    /// The examples that may still be evaluated, if there is a limit.
    pub metric_calls_remaining: Option<usize>,
}

/// Something went wrong.
#[derive(Debug)]
pub struct ErrorEvent {
    /// The iteration.
    pub iteration: usize,
    /// What went wrong.
    pub error: String,
    /// Whether the run goes on.
    pub will_continue: bool,
}

} // verus!
