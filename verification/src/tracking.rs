//! Tracking of the progress of a run.
use vstd::prelude::*;

use crate::score::Score;

verus! {

/// Where the progress of a run is tracked.
pub trait ExperimentTracker: Send + Sync {
    /// Log a number at a step.
    fn log_metric(&self, key: &str, value: Score, step: usize);

    /// Log a text. Does nothing by default.
    fn log_text(&self, key: &str, value: &str) {
    }

    /// The run is over. Does nothing by default.
    fn finish(&self) {
    }
}

/// Tracks nothing.
pub struct NoopTracker;

impl ExperimentTracker for NoopTracker {
    fn log_metric(&self, key: &str, value: Score, step: usize) {
    }

    fn log_text(&self, key: &str, value: &str) {
    }

    fn finish(&self) {
    }
}

} // verus!
