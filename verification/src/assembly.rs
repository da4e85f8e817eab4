//! The parts of a run, made from its configuration.
use serde_json::Value;
use vstd::prelude::*;

use crate::api::{
    build_stop_condition, configured, CandidateSelectorKind, ComponentSelectorKind, OptimizeConfig,
};
use crate::error::{GEPAError, Result};
use crate::optimizer::adapter::Candidate;
use crate::optimizer::data_loader::DataId;
use crate::optimizer::engine::EngineSettings;
use crate::optimizer::state::GEPAState;
use crate::proposer::merge_proposer::MergeProposer;
use crate::proposer::reflective_mutation::ReflectiveMutationProposer;
use crate::random::seeded_generator;
use crate::score::{Score, ScoreArithmetic};
use crate::strategies::batch_sampler::EpochShuffledSampler;
use crate::strategies::candidate_selector::{
    is_probability, CandidateSelector, CurrentBestSelector, EpsilonGreedySelector,
    ParetoCandidateSelector,
};
use crate::strategies::component_selector::{
    AllComponentSelector, ComponentSelector, RoundRobinSelector,
};
use crate::utils::pareto::selected;
use crate::utils::stop_condition::{CompositeMode, CompositeStopper, Stopper};

verus! {

/// One of the candidate selectors that a configuration can name.
pub enum ConfiguredSelector<A: ScoreArithmetic> {
    /// From the Pareto front.
    Pareto(ParetoCandidateSelector),
    /// The best candidate.
    CurrentBest(CurrentBestSelector),
    /// The best candidate, or sometimes any.
    EpsilonGreedy(EpsilonGreedySelector<A>),
}

impl<A: ScoreArithmetic> ConfiguredSelector<A> {
    /// Whether `after` may be left once the selector has chosen `r`.
    pub open spec fn leaves<Id: DataId>(
        &self,
        after: Self,
        state: GEPAState<Id>,
        r: Result<usize>,
    ) -> bool {
        match *self {
            ConfiguredSelector::Pareto(s) => after matches ConfiguredSelector::Pareto(t)
                && selected(
                state.frontier(),
                state.mean_scores(),
                s.generator(),
                t.generator(),
                r,
            ),
            ConfiguredSelector::CurrentBest(_) => after is CurrentBest,
            ConfiguredSelector::EpsilonGreedy(s) => after matches ConfiguredSelector::EpsilonGreedy(
                t,
            ) && s.leaves(t, state, r),
        }
    }
}

impl<Id: DataId, A: ScoreArithmetic + Send + Sync> CandidateSelector<Id> for ConfiguredSelector<A> {
    /// What the selector itself may give.
    open spec fn may_give(&self, state: GEPAState<Id>, r: Result<usize>) -> bool {
        match self {
            ConfiguredSelector::Pareto(s) => s.may_give(state, r),
            ConfiguredSelector::CurrentBest(s) => s.may_give(state, r),
            ConfiguredSelector::EpsilonGreedy(s) => s.may_give(state, r),
        }
    }

    /// What the selector itself may leave.
    open spec fn may_leave(&self, after: &Self, state: GEPAState<Id>, r: Result<usize>) -> bool {
        self.leaves(*after, state, r)
    }

    fn select_candidate_idx(&mut self, state: &GEPAState<Id>) -> (r: Result<usize>) {
        match self {
            ConfiguredSelector::Pareto(s) => s.select_candidate_idx(state),
            ConfiguredSelector::CurrentBest(s) => s.select_candidate_idx(state),
            ConfiguredSelector::EpsilonGreedy(s) => s.select_candidate_idx(state),
        }
    }
}

/// One of the component selectors that a configuration can name.
pub enum ConfiguredComponents {
    /// All components.
    All(AllComponentSelector),
    /// One at a time, in turn.
    RoundRobin(RoundRobinSelector),
}

impl<Id: DataId> ComponentSelector<Id> for ConfiguredComponents {
    /// What the selector itself may give.
    open spec fn may_give(
        &self,
        before: GEPAState<Id>,
        after: GEPAState<Id>,
        trajectories: Seq<Value>,
        subsample_scores: Seq<Score>,
        candidate_idx: usize,
        entries: Seq<(Seq<char>, Seq<char>)>,
        r: Result<Vec<String>>,
    ) -> bool {
        match self {
            ConfiguredComponents::All(s) => s.may_give(
                before,
                after,
                trajectories,
                subsample_scores,
                candidate_idx,
                entries,
                r,
            ),
            ConfiguredComponents::RoundRobin(s) => s.may_give(
                before,
                after,
                trajectories,
                subsample_scores,
                candidate_idx,
                entries,
                r,
            ),
        }
    }

    fn select_components(
        &self,
        state: &mut GEPAState<Id>,
        trajectories: &[Value],
        subsample_scores: &[Score],
        candidate_idx: usize,
        candidate: &Candidate,
    ) -> (r: Result<Vec<String>>) {
        match self {
            ConfiguredComponents::All(s) => s.select_components(
                state,
                trajectories,
                subsample_scores,
                candidate_idx,
                candidate,
            ),
            ConfiguredComponents::RoundRobin(s) => s.select_components(
                state,
                trajectories,
                subsample_scores,
                candidate_idx,
                candidate,
            ),
        }
    }
}

/// The proposer of mutations that a configuration describes.
pub type ConfiguredMutation<Id, A> = ReflectiveMutationProposer<
    ConfiguredSelector<A>,
    ConfiguredComponents,
    EpochShuffledSampler<Id>,
>;

/// The parts of a run.
pub struct Assembly<Id: DataId, A: ScoreArithmetic> {
    /// The seed candidate.
    pub seed_candidate: Candidate,
    /// Makes mutations.
    pub mutation: ConfiguredMutation<Id, A>,
    /// Makes merges.
    pub merge: MergeProposer,
    /// Says when the run stops.
    pub stop: CompositeStopper<Stopper<A>>,
    /// What the state of the run depends on.
    pub settings: EngineSettings,
    /// The seed of the pseudo-random generators, if one was given.
    pub rng_seed: Option<u64>,
    /// The directory of the run's files.
    pub run_dir: Option<String>,
    /// The component whose text stands for the whole candidate, if there is one.
    pub str_candidate_key: Option<String>,
}

/// The seed of the pseudo-random generators; 0 where none is given.
pub open spec fn configured_seed(config: OptimizeConfig) -> u64 {
    match config.rng_seed {
        Some(seed) => seed,
        None => 0,
    }
}

impl<Id: DataId, A: ScoreArithmetic> Assembly<Id, A> {
    /// Whether these are the parts that `config` describes.
    pub open spec fn follows(&self, config: OptimizeConfig, arith: A) -> bool {
        let generator = seeded_generator(configured_seed(config));
        &&& self.seed_candidate == config.seed_candidate
        &&& match config.candidate_selector {
            CandidateSelectorKind::Pareto => {
                &&& self.mutation.candidate_selector matches ConfiguredSelector::Pareto(s)
                &&& s.generator() == generator
            },
            CandidateSelectorKind::CurrentBest => self.mutation.candidate_selector is CurrentBest,
            CandidateSelectorKind::EpsilonGreedy => {
                &&& self.mutation.candidate_selector matches ConfiguredSelector::EpsilonGreedy(s)
                &&& s.probability() == config.epsilon
                &&& s.arithmetic() == arith
                &&& s.generator() == generator
            },
        }
        &&& match config.component_selector {
            ComponentSelectorKind::All => self.mutation.component_selector is All,
            ComponentSelectorKind::RoundRobin => self.mutation.component_selector is RoundRobin,
        }
        &&& self.mutation.batch_sampler.wf()
        &&& self.mutation.batch_sampler.minibatch_size == config.minibatch_size
        &&& self.mutation.batch_sampler.rng == generator
        &&& self.mutation.batch_sampler.shuffled_ids@.len() == 0
        &&& self.mutation.batch_sampler.epoch is None
        &&& self.mutation.batch_sampler.last_trainset_size == 0
        &&& self.mutation.reflection_prompt_template == config.reflection_prompt_template
        &&& self.mutation.perfect_score == config.perfect_score
        &&& self.mutation.skip_perfect_score == config.skip_perfect_score
        &&& self.merge.wf()
        &&& self.merge.use_merge == config.use_merge
        &&& self.merge.max_merge_invocations == config.max_merge_invocations
        &&& self.merge.val_overlap_floor == config.val_overlap_floor
        &&& self.merge.rng == generator
        &&& self.merge.merges_performed.0@.len() == 0
        &&& self.merge.merges_performed.1@.len() == 0
        &&& !self.merge.last_iter_found_new_program
        &&& self.merge.merges_due == 0
        &&& self.merge.total_merges_tested == 0
        &&& self.stop.mode == CompositeMode::Any
        &&& configured(self.stop.conditions@, config.stop_condition)
        &&& self.settings.frontier_type == config.frontier_type
        &&& self.settings.track_best_outputs == config.track_best_outputs
        &&& self.settings.cache_evaluation == config.cache_evaluation
        &&& self.rng_seed == config.rng_seed
        &&& self.run_dir == config.run_dir
        &&& self.str_candidate_key == config.str_candidate_key
    }
}

/// A configuration error that tells of another error, behind `label`.
fn because(label: &str, cause: &GEPAError) -> (e: GEPAError)
    ensures
        e matches GEPAError::Config(text) && exists|detail: Seq<char>| #[trigger]
            cause.reads(detail) && text@ == label@ + detail,
{
    let detail = cause.to_string();
    let mut text = label.to_owned();
    text.append(detail.as_str());
    GEPAError::Config(text)
}

/// What is wrong with a configuration.
pub enum ConfigFault {
    /// The probability does not lie between 0 and 1.
    Epsilon,
    /// A minibatch has no examples.
    Minibatch,
    /// The parents of a merge need not share examples.
    Overlap,
}

/// The first thing that is wrong with the configuration.
pub open spec fn config_fault(config: OptimizeConfig) -> Option<ConfigFault> {
    if config.candidate_selector == CandidateSelectorKind::EpsilonGreedy && !is_probability(
        config.epsilon,
    ) {
        Some(ConfigFault::Epsilon)
    } else if config.minibatch_size == 0 {
        Some(ConfigFault::Minibatch)
    } else if config.val_overlap_floor == 0 {
        Some(ConfigFault::Overlap)
    } else {
        None
    }
}

/// Whether `text` tells of the fault.
pub open spec fn tells_of<A: ScoreArithmetic>(
    fault: ConfigFault,
    config: OptimizeConfig,
    arith: A,
    text: Seq<char>,
) -> bool {
    match fault {
        ConfigFault::Epsilon => exists|number: String| #[trigger]
            call_ensures(A::text, (&arith, config.epsilon), number) && text
                == "Invalid epsilon: "@ + ("Configuration error: "@ + (
            "epsilon must be in [0.0, 1.0], got "@ + number@)),
        ConfigFault::Minibatch => text == "Invalid minibatch_size: "@ + (
        "Configuration error: "@ + "minibatch_size must be at least 1"@),
        ConfigFault::Overlap => text == "Failed to construct MergeProposer: "@ + (
        "Configuration error: "@ + "val_overlap_floor must be a positive integer"@),
    }
}

/// The parts of the run that `config` describes.
///
/// # Errors
/// A configuration error where the probability of the epsilon-greedy selector
/// does not lie between 0 and 1, where a minibatch has no examples, or where the
/// parents of a merge need not share examples.
pub fn assemble<Id: DataId, A: ScoreArithmetic>(config: OptimizeConfig, arith: A) -> (r: Result<
    Assembly<Id, A>,
>)
    requires
        config.stop_condition.timeout matches Some(t) ==> t.wf(),
    ensures
        match config_fault(config) {
            None => r matches Ok(parts) && parts.follows(config, arith),
            Some(fault) => {
                &&& r matches Err(e)
                &&& e matches GEPAError::Config(text)
                &&& tells_of(fault, config, arith, text@)
            },
        },
{
    let seed: u64 = match config.rng_seed {
        Some(seed) => seed,
        None => 0,
    };
    let stop: CompositeStopper<Stopper<A>> = build_stop_condition(&config.stop_condition);
    let candidate_selector = match config.candidate_selector {
        CandidateSelectorKind::Pareto => ConfiguredSelector::Pareto(
            ParetoCandidateSelector::new(seed),
        ),
        CandidateSelectorKind::CurrentBest => ConfiguredSelector::CurrentBest(CurrentBestSelector),
        CandidateSelectorKind::EpsilonGreedy => match EpsilonGreedySelector::new(
            config.epsilon,
            seed,
            arith,
        ) {
            Ok(s) => ConfiguredSelector::EpsilonGreedy(s),
            Err(e) => return Err(because("Invalid epsilon: ", &e)),
        },
    };
    let component_selector = match config.component_selector {
        ComponentSelectorKind::All => ConfiguredComponents::All(AllComponentSelector),
        ComponentSelectorKind::RoundRobin => ConfiguredComponents::RoundRobin(RoundRobinSelector),
    };
    let batch_sampler = match EpochShuffledSampler::new(config.minibatch_size, seed) {
        Ok(s) => s,
        Err(e) => return Err(because("Invalid minibatch_size: ", &e)),
    };
    let merge = match MergeProposer::new(
        config.use_merge,
        config.max_merge_invocations,
        config.val_overlap_floor,
        seed,
    ) {
        Ok(p) => p,
        Err(e) => return Err(because("Failed to construct MergeProposer: ", &e)),
    };
    let settings = EngineSettings {
        frontier_type: config.frontier_type,
        track_best_outputs: config.track_best_outputs,
        cache_evaluation: config.cache_evaluation,
    };
    let mutation = ReflectiveMutationProposer {
        candidate_selector,
        component_selector,
        batch_sampler,
        reflection_prompt_template: config.reflection_prompt_template,
        perfect_score: config.perfect_score,
        skip_perfect_score: config.skip_perfect_score,
    };
    Ok(
        Assembly {
            seed_candidate: config.seed_candidate,
            mutation,
            merge,
            stop,
            settings,
            rng_seed: config.rng_seed,
            run_dir: config.run_dir,
            str_candidate_key: config.str_candidate_key,
        },
    )
}

} // verus!
