//! Proposers of new candidates.
pub mod base;
pub mod merge;
pub mod merge_draws;
pub mod merge_proposer;
pub mod reflective_mutation;
pub mod subsample;
