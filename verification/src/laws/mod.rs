//! What holds of the library's operations, over all inputs.
pub mod batches;
pub mod candidates;
pub mod choices;
pub mod evaluations;
pub mod fronts;
pub mod history;
pub mod merges;
pub mod messages;
pub mod metrics;
pub mod prompts;
pub mod reflection;
pub mod scores;
pub mod service;
pub mod setup;
pub mod stops;
pub mod texts;
