//! When a run stops.
use vstd::prelude::*;

use crate::api::{configured, StopConditionConfig};
use crate::laws::prompts::lemma_glued_push;
use crate::laws::texts::glued;
use crate::optimizer::data_loader::DataId;
use crate::optimizer::state::{GEPAState, BEFORE_FIRST_ITERATION};
use crate::score::ScoreArithmetic;
use crate::utils::stop_condition::{
    comma_joined, CompositeMode, CompositeStopper, MaxIterationsStopper, MaxMetricCallsStopper,
    Span, StopCondition, Stopper, NANOS_PER_SEC,
};

verus! {

/// Of two lengths of time the one with more seconds is the longer, and with the
/// same seconds the one with more nanoseconds.
pub proof fn spans_are_ordered(a: Span, b: Span)
    requires
        a.wf(),
        b.wf(),
    ensures
        a.total() >= b.total() <==> a.secs > b.secs || (a.secs == b.secs && a.nanos >= b.nanos),
        NANOS_PER_SEC == 1_000_000_000,
{
}

/// A limit on evaluations stops a run just where as many were made.
pub proof fn a_limit_on_evaluations<Id: DataId>(
    limit: MaxMetricCallsStopper,
    state: GEPAState<Id>,
)
    ensures
        limit.may_say(state, true) <==> state.total_num_evals >= limit.max_calls,
        limit.may_say(state, false) <==> state.total_num_evals < limit.max_calls,
{
}

/// A limit on iterations stops a run just where as many were made, and never
/// before the first.
pub proof fn a_limit_on_iterations<Id: DataId>(limit: MaxIterationsStopper, state: GEPAState<Id>)
    ensures
        state.i == BEFORE_FIRST_ITERATION ==> !limit.may_say(state, true),
        state.i != BEFORE_FIRST_ITERATION ==> (limit.may_say(state, true) <==> state.i
            >= limit.max_iterations),
        limit.may_say(state, false) <==> !limit.may_say(state, true),
{
}

/// A composite of all conditions stops a run only where each of them may.
pub proof fn all_must_stop<Id: DataId, C: StopCondition<Id>>(
    stopper: CompositeStopper<C>,
    state: GEPAState<Id>,
    i: int,
)
    requires
        stopper.mode == CompositeMode::All,
        stopper.may_say(state, true),
        0 <= i < stopper.conditions@.len(),
    ensures
        stopper.conditions@[i].may_say(state, true),
{
}

/// A composite of any goes on only where each of them may.
pub proof fn none_must_stop<Id: DataId, C: StopCondition<Id>>(
    stopper: CompositeStopper<C>,
    state: GEPAState<Id>,
    i: int,
)
    requires
        stopper.mode == CompositeMode::Any,
        stopper.may_say(state, false),
        0 <= i < stopper.conditions@.len(),
    ensures
        stopper.conditions@[i].may_say(state, false),
{
}

/// A run with a limit on evaluations stops once it is reached, whatever the other
/// limits are.
pub proof fn a_configured_limit_on_evaluations_is_kept<
    Id: DataId,
    A: ScoreArithmetic + Send + Sync,
>(
    stopper: CompositeStopper<Stopper<A>>,
    cfg: StopConditionConfig,
    state: GEPAState<Id>,
    limit: usize,
    b: bool,
)
    requires
        stopper.mode == CompositeMode::Any,
        configured(stopper.conditions@, cfg),
        cfg.max_metric_calls == Some(limit),
        state.total_num_evals >= limit,
        <CompositeStopper<Stopper<A>> as StopCondition<Id>>::may_say(&stopper, state, b),
    ensures
        b,
{
    if !b {
        none_must_stop::<Id, Stopper<A>>(stopper, state, 0);
    }
}

/// A run with a limit on iterations stops once it is reached, whatever the other
/// limits are.
pub proof fn a_configured_limit_on_iterations_is_kept<
    Id: DataId,
    A: ScoreArithmetic + Send + Sync,
>(
    stopper: CompositeStopper<Stopper<A>>,
    cfg: StopConditionConfig,
    state: GEPAState<Id>,
    limit: usize,
    b: bool,
)
    requires
        stopper.mode == CompositeMode::Any,
        configured(stopper.conditions@, cfg),
        cfg.max_iterations == Some(limit),
        state.i != BEFORE_FIRST_ITERATION,
        state.i >= limit,
        <CompositeStopper<Stopper<A>> as StopCondition<Id>>::may_say(&stopper, state, b),
    ensures
        b,
{
    if !b {
        let at = if cfg.max_metric_calls is Some {
            1int
        } else {
            0
        };
        none_must_stop::<Id, Stopper<A>>(stopper, state, at);
    }
}

/// A run with no other limit than one on evaluations goes on until it is reached.
pub proof fn only_a_reached_limit_stops<Id: DataId, A: ScoreArithmetic + Send + Sync>(
    stopper: CompositeStopper<Stopper<A>>,
    cfg: StopConditionConfig,
    state: GEPAState<Id>,
    limit: usize,
    b: bool,
)
    requires
        stopper.mode == CompositeMode::Any,
        configured(stopper.conditions@, cfg),
        cfg.max_metric_calls == Some(limit),
        cfg.max_iterations is None,
        cfg.timeout is None,
        state.total_num_evals < limit,
        <CompositeStopper<Stopper<A>> as StopCondition<Id>>::may_say(&stopper, state, b),
    ensures
        !b,
{
    if b {
        assert(stopper.one_may_say::<Id>(state, true));
        let i = choose|i: int|
            0 <= i < stopper.conditions@.len() && (#[trigger] stopper.conditions@[i]).may_say(
                state,
                true,
            ) && stopper.all_may_say::<Id>(state, false, i);
        assert(i == 0);
    }
}

/// Without any limit a run has one of ten thousand iterations.
pub proof fn without_limits_the_iterations_are_limited<A: ScoreArithmetic + Send + Sync>(
    conditions: Seq<Stopper<A>>,
    cfg: StopConditionConfig,
)
    requires
        configured(conditions, cfg),
        cfg.max_metric_calls is None,
        cfg.max_iterations is None,
        cfg.timeout is None,
    ensures
        conditions.len() == 1,
        conditions[0] matches Stopper::MaxIterations(s) && s.max_iterations == 10_000,
{
}

/// The descriptions of the conditions stand one after the other, with a comma
/// between them.
pub proof fn descriptions_are_joined_by_commas(parts: Seq<Seq<char>>, n: int)
    requires
        0 <= n <= parts.len(),
    ensures
        comma_joined(parts, n) == glued(parts.take(n), seq![',', ' ']),
    decreases n,
{
    reveal_strlit(", ");
    assert(", "@ =~= seq![',', ' ']);
    if n > 0 {
        descriptions_are_joined_by_commas(parts, n - 1);
        assert(parts.take(n) =~= parts.take(n - 1).push(parts[n - 1]));
        lemma_glued_push(parts.take(n - 1), parts[n - 1], seq![',', ' ']);
    }
}

/// A run with a limit on time has a condition with that limit.
pub proof fn a_configured_limit_on_time_is_kept<A: ScoreArithmetic + Send + Sync>(
    conditions: Seq<Stopper<A>>,
    cfg: StopConditionConfig,
    limit: Span,
)
    requires
        configured(conditions, cfg),
        cfg.timeout == Some(limit),
    ensures
        exists|i: int|
            0 <= i < conditions.len() && (#[trigger] conditions[i] matches Stopper::Timeout(s)
                && s.limit() == limit),
        conditions.len() == 1 + (if cfg.max_metric_calls is Some {
            1int
        } else {
            0
        }) + (if cfg.max_iterations is Some {
            1int
        } else {
            0
        }),
{
    let at = (if cfg.max_metric_calls is Some {
        1int
    } else {
        0
    }) + (if cfg.max_iterations is Some {
        1int
    } else {
        0
    });
    assert(conditions[at] matches Stopper::Timeout(s) && s.limit() == limit);
}

} // verus!
