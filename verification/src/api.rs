//! The configuration of a run.
use vstd::prelude::*;

use crate::optimizer::adapter::Candidate;
use crate::optimizer::frontier::FrontierType;
use crate::proposer::reflective_mutation::PromptTemplateConfig;
use crate::score::{Score, ScoreArithmetic};
use crate::utils::stop_condition::{
    CompositeMode, CompositeStopper, MaxIterationsStopper, MaxMetricCallsStopper, Span, Stopper,
    TimeoutStopper,
};

verus! {

/// How the candidate to mutate is chosen.
#[derive(Debug, Clone, Copy, PartialEq, Eq, Structural)]
pub enum CandidateSelectorKind {
    /// From the Pareto front, by the number of fronts.
    Pareto,
    /// The one with the best mean score.
    CurrentBest,
    /// The one with the best mean score, or sometimes any.
    EpsilonGreedy,
}

impl Default for CandidateSelectorKind {
    fn default() -> (k: CandidateSelectorKind)
        ensures
            k == CandidateSelectorKind::Pareto,
    {
        CandidateSelectorKind::Pareto
    }
}

/// How the components to update are chosen.
#[derive(Debug, Clone, Copy, PartialEq, Eq, Structural)]
pub enum ComponentSelectorKind {
    /// All of them.
    All,
    /// One at a time, in turn.
    RoundRobin,
}

impl Default for ComponentSelectorKind {
    fn default() -> (k: ComponentSelectorKind)
        ensures
            k == ComponentSelectorKind::RoundRobin,
    {
        ComponentSelectorKind::RoundRobin
    }
}

/// When a run stops: once the first of these limits is reached.
#[derive(Debug, Clone, Copy)]
pub struct StopConditionConfig {
    /// The number of examples to evaluate, if it is limited.
    pub max_metric_calls: Option<usize>,
    /// The number of iterations, if it is limited.
    pub max_iterations: Option<usize>,
    /// The time, if it is limited.
    pub timeout: Option<Span>,
}

impl Default for StopConditionConfig {
    fn default() -> (c: StopConditionConfig)
        ensures
            c.max_metric_calls == Some(500usize),
            c.max_iterations is None,
            c.timeout is None,
    {
        StopConditionConfig { max_metric_calls: Some(500), max_iterations: None, timeout: None }
    }
}

/// The language model.
#[derive(Clone)]
pub struct LMConfig {
    /// Its identifier.
    pub model: String,
    /// The key for the API; empty where none is needed.
    pub api_key: String,
    /// The base URL of the API.
    pub base_url: String,
    /// The sampling temperature.
    pub temperature: Option<Score>,
    /// The greatest number of tokens to generate.
    pub max_tokens: Option<u32>,
    /// How often a failed request is tried again.
    pub max_retries: u32,
}

impl Default for LMConfig {
    fn default() -> (c: LMConfig)
        ensures
            c.model@ == "gpt-4o-mini"@,
            c.api_key@ == Seq::<char>::empty(),
            c.base_url@ == "https://api.openai.com"@,
            c.temperature == Some(Score { bits: 0x3ff0_0000_0000_0000 }),
            c.max_tokens == Some(4096u32),
            c.max_retries == 3,
    {
        LMConfig {
            model: "gpt-4o-mini".to_owned(),
            api_key: String::new(),
            base_url: "https://api.openai.com".to_owned(),
            temperature: Some(Score::one()),
            max_tokens: Some(4096),
            max_retries: 3,
        }
    }
}

/// The settings of a run, apart from its data and its adapter.
pub struct OptimizeConfig {
    /// The candidate that the run starts from.
    pub seed_candidate: Candidate,
    /// The language model.
    pub lm_config: LMConfig,
    /// When the run stops.
    pub stop_condition: StopConditionConfig,
    /// How the candidate to mutate is chosen.
    pub candidate_selector: CandidateSelectorKind,
    /// How often any candidate is chosen, where the choice is epsilon-greedy.
    pub epsilon: Score,
    /// How the components to update are chosen.
    pub component_selector: ComponentSelectorKind,
    /// The number of training examples in a minibatch.
    pub minibatch_size: usize,
    /// Whether candidates are merged.
    pub use_merge: bool,
    /// How many merges may succeed.
    pub max_merge_invocations: usize,
    /// How many examples the parents of a merge must share.
    pub val_overlap_floor: usize,
    /// Which Pareto fronts candidates are selected from.
    pub frontier_type: FrontierType,
    /// The score that cannot be improved on, if there is one.
    pub perfect_score: Option<Score>,
    /// Whether minibatches on which all scores are perfect are skipped.
    pub skip_perfect_score: bool,
    /// The prompt template, where it is not the built-in one.
    pub reflection_prompt_template: Option<PromptTemplateConfig>,
    /// The seed of the pseudo-random generator.
    pub rng_seed: Option<u64>,
    /// The directory of the run's files.
    pub run_dir: Option<String>,
    /// The component whose text stands for the whole candidate, if there is one.
    pub str_candidate_key: Option<String>,
    /// Whether the best output on every example is kept.
    pub track_best_outputs: bool,
    /// Whether evaluation results are cached.
    pub cache_evaluation: bool,
}

impl OptimizeConfig {
    /// The settings with everything else at its default.
    pub fn new(seed_candidate: Candidate, lm_config: LMConfig) -> (c: Self)
        ensures
            c.seed_candidate == seed_candidate,
            c.lm_config == lm_config,
            c.stop_condition.max_metric_calls == Some(500usize),
            c.stop_condition.max_iterations is None,
            c.stop_condition.timeout is None,
            c.candidate_selector == CandidateSelectorKind::Pareto,
            c.epsilon == (Score { bits: 0x3fb9_9999_9999_999a }),
            c.component_selector == ComponentSelectorKind::RoundRobin,
            c.minibatch_size == 3,
            c.use_merge,
            c.max_merge_invocations == 20,
            c.val_overlap_floor == 5,
            c.frontier_type == FrontierType::Instance,
            c.perfect_score == Some(Score { bits: 0x3ff0_0000_0000_0000 }),
            c.skip_perfect_score,
            c.reflection_prompt_template is None,
            c.rng_seed is None,
            c.run_dir is None,
            c.str_candidate_key is None,
            c.track_best_outputs,
            !c.cache_evaluation,
    {
        OptimizeConfig {
            seed_candidate,
            lm_config,
            stop_condition: StopConditionConfig::default(),
            candidate_selector: CandidateSelectorKind::default(),
            epsilon: Score::from_bits(0x3fb9_9999_9999_999a),
            component_selector: ComponentSelectorKind::default(),
            minibatch_size: 3,
            use_merge: true,
            max_merge_invocations: 20,
            val_overlap_floor: 5,
            frontier_type: FrontierType::Instance,
            perfect_score: Some(Score::one()),
            skip_perfect_score: true,
            reflection_prompt_template: None,
            rng_seed: None,
            run_dir: None,
            str_candidate_key: None,
            track_best_outputs: true,
            cache_evaluation: false,
        }
    }
}

/// How many iterations are made where no limit is set.
pub const UNLIMITED_ITERATIONS: usize = 10_000;

/// Whether `condition` is the limit on examples that `limit` sets.
pub open spec fn limits_calls<A: ScoreArithmetic>(condition: Stopper<A>, limit: usize) -> bool {
    condition matches Stopper::MaxMetricCalls(s) && s.max_calls == limit
}

/// Whether `condition` is the limit on iterations that `limit` sets.
pub open spec fn limits_iterations<A: ScoreArithmetic>(condition: Stopper<A>, limit: usize) -> bool {
    condition matches Stopper::MaxIterations(s) && s.max_iterations == limit
}

/// Whether `condition` is the limit on time that `limit` sets.
pub open spec fn limits_time<A: ScoreArithmetic>(condition: Stopper<A>, limit: Span) -> bool {
    condition matches Stopper::Timeout(s) && s.limit() == limit
}

/// Whether `conditions` are the limits that `cfg` sets, in order, or one large
/// limit on iterations where it sets none.
pub open spec fn configured<A: ScoreArithmetic>(
    conditions: Seq<Stopper<A>>,
    cfg: StopConditionConfig,
) -> bool {
    let a = if cfg.max_metric_calls is Some {
        1int
    } else {
        0
    };
    let b = if cfg.max_iterations is Some {
        1int
    } else {
        0
    };
    let c = if cfg.timeout is Some {
        1int
    } else {
        0
    };
    if a + b + c == 0 {
        conditions.len() == 1 && limits_iterations(conditions[0], UNLIMITED_ITERATIONS)
    } else {
        &&& conditions.len() == a + b + c
        &&& cfg.max_metric_calls matches Some(limit) ==> limits_calls(conditions[0], limit)
        &&& cfg.max_iterations matches Some(limit) ==> limits_iterations(conditions[a], limit)
        &&& cfg.timeout matches Some(limit) ==> limits_time(conditions[a + b], limit)
    }
}

/// The condition under which a run with these limits stops: once the first is
/// reached.
pub fn build_stop_condition<A: ScoreArithmetic>(cfg: &StopConditionConfig) -> (s: CompositeStopper<
    Stopper<A>,
>)
    requires
        cfg.timeout matches Some(t) ==> t.wf(),
    ensures
        s.mode == CompositeMode::Any,
        configured(s.conditions@, *cfg),
{
    let mut s: CompositeStopper<Stopper<A>> = CompositeStopper::new(CompositeMode::Any);
    let mut has_any = false;
    if let Some(limit) = cfg.max_metric_calls {
        s = s.push_condition(Stopper::MaxMetricCalls(MaxMetricCallsStopper::new(limit)));
        has_any = true;
    }
    if let Some(limit) = cfg.max_iterations {
        s = s.push_condition(Stopper::MaxIterations(MaxIterationsStopper::new(limit)));
        has_any = true;
    }
    if let Some(limit) = cfg.timeout {
        s = s.push_condition(Stopper::Timeout(TimeoutStopper::new(limit)));
        has_any = true;
    }
    if !has_any {
        s =
        s.push_condition(Stopper::MaxIterations(MaxIterationsStopper::new(UNLIMITED_ITERATIONS)));
    }
    s
}

} // verus!
