//! What a configuration is turned into.
use vstd::prelude::*;

use crate::api::{CandidateSelectorKind, OptimizeConfig};
use crate::assembly::{
    config_fault, configured_seed, Assembly, ConfigFault, ConfiguredSelector,
};
use crate::optimizer::data_loader::DataId;
use crate::optimizer::frontier::FrontierType;
use crate::random::seeded_generator;
use crate::score::ScoreArithmetic;

verus! {

/// A configuration is refused just where a probability is called for and is none,
/// where minibatches have no examples, or where parents need not share examples.
pub proof fn sound_configurations_are_accepted(config: OptimizeConfig)
    ensures
        config_fault(config) is None <==> {
            &&& config.minibatch_size > 0
            &&& config.val_overlap_floor > 0
            &&& config.candidate_selector == CandidateSelectorKind::EpsilonGreedy
                ==> config.epsilon.bits <= 0x3ff0_0000_0000_0000 || config.epsilon.bits
                == 0x8000_0000_0000_0000
        },
        config_fault(config) == Some(ConfigFault::Minibatch) ==> config.minibatch_size == 0,
        config_fault(config) == Some(ConfigFault::Overlap) ==> config.val_overlap_floor == 0,
{
}

/// One seed goes to every source of chance; without one it is 0.
pub proof fn one_seed_serves_all<Id: DataId, A: ScoreArithmetic>(
    parts: Assembly<Id, A>,
    config: OptimizeConfig,
    arith: A,
)
    requires
        parts.follows(config, arith),
    ensures
        config.rng_seed is None ==> configured_seed(config) == 0,
        config.rng_seed matches Some(seed) ==> configured_seed(config) == seed,
        parts.merge.rng == seeded_generator(configured_seed(config)),
        parts.mutation.batch_sampler.rng == seeded_generator(configured_seed(config)),
        parts.mutation.candidate_selector matches ConfiguredSelector::Pareto(s) ==> s.generator()
            == seeded_generator(configured_seed(config)),
        parts.mutation.candidate_selector matches ConfiguredSelector::EpsilonGreedy(s)
            ==> s.generator() == seeded_generator(configured_seed(config)) && s.probability()
            == config.epsilon,
        parts.mutation.candidate_selector is Pareto <==> config.candidate_selector
            == CandidateSelectorKind::Pareto,
        parts.mutation.candidate_selector is CurrentBest <==> config.candidate_selector
            == CandidateSelectorKind::CurrentBest,
        !parts.merge.due(),
{
}

/// Objective scores are needed for every kind of front but that on the examples.
pub proof fn only_fronts_on_examples_need_no_objectives(t: FrontierType)
    ensures
        t.needs_objectives() <==> t is Objective || t is Hybrid || t is Cartesian,
{
}

} // verus!
