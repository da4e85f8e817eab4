//! Strategies: which candidate, which component, which examples, what prompt.
pub mod batch_sampler;
pub mod built_in_prompt;
pub mod candidate_selector;
pub mod component_selector;
pub mod eval_policy;
pub mod instruction_proposal;
pub mod markdown;
