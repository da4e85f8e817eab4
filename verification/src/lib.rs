//! Reflective evolution of the text components of a program.
//!
//! Candidates are mutated by a language model in view of what happened when
//! they were tried, merged with each other, and kept on Pareto fronts over the
//! validation examples.
pub mod adapters;
pub mod api;
pub mod assembly;
pub mod error;
pub mod json_text;
pub mod json_value;
pub mod keyed;
pub mod laws;
pub mod lm;
pub mod optimizer;
pub mod proposer;
pub mod random;
pub mod score;
pub mod strategies;
pub mod text;
pub mod tracking;
pub mod utils;

pub use api::{
    CandidateSelectorKind, ComponentSelectorKind, LMConfig, OptimizeConfig, StopConditionConfig,
};
pub use error::{GEPAError, Result};
pub use keyed::{KeyMap, MapKey};
pub use optimizer::adapter::{Candidate, EvaluationBatch, ObjectiveScores};
pub use optimizer::cache::{candidate_hash, CachedEvaluation, EvaluationCache};
pub use optimizer::component::{component_kind, ComponentKind, ComponentMeta, ComponentMetaMap};
pub use optimizer::data_loader::{
    ensure_loader, DataId, DataLoader, MutableDataLoader, VecLoader,
};
pub use optimizer::evaluation::ValsetEvaluation;
pub use optimizer::frontier::{FrontierKey, FrontierType};
pub use optimizer::result::GEPAResult;
pub use optimizer::state::GEPAState;
pub use proposer::base::CandidateProposal;
pub use proposer::merge_proposer::MergeProposer;
pub use proposer::reflective_mutation::{PromptTemplateConfig, ReflectiveMutationProposer};
pub use score::{Score, ScoreArithmetic};
pub use strategies::batch_sampler::{BatchSampler, EpochShuffledSampler};
pub use strategies::candidate_selector::{
    CandidateSelector, CurrentBestSelector, EpsilonGreedySelector, ParetoCandidateSelector,
    TopKParetoCandidateSelector,
};
pub use strategies::component_selector::{
    AllComponentSelector, ComponentSelector, RoundRobinSelector,
};
pub use strategies::eval_policy::{EvalPolicy, FullEvalPolicy};
pub use strategies::instruction_proposal::{extract_output, render_prompt, META_PROMPT_TEMPLATE};
pub use strategies::markdown::format_samples_as_markdown;
pub use tracking::{ExperimentTracker, NoopTracker};
pub use utils::pareto::{
    find_dominator_programs, idxmax, is_dominated, remove_dominated_programs,
    select_program_candidate_from_pareto_front,
};
pub use utils::programs::ProgramIdx;
pub use utils::stop_condition::{
    CompositeMode, CompositeStopper, FileStopper, MaxIterationsStopper, MaxMetricCallsStopper,
    NoImprovementStopper, SignalStopper, StopCondition, TimeoutStopper,
};
