#![allow(dead_code)]
use std::sync::atomic::Ordering as AtomicOrdering;
use std::time::{Duration, Instant};

use gepa::api::build_stop_condition;
use gepa::optimizer::state::BEFORE_FIRST_ITERATION;
use gepa::utils::stop_condition::{
    judge_stagnation, CompositeStopper, FileStopper, MaxIterationsStopper, MaxMetricCallsStopper,
    NoImprovementStopper, SignalStopper, Span, StopCondition, Stopper, TimeoutStopper,
};
use gepa::{
    Candidate, FrontierType, GEPAState, LMConfig, OptimizeConfig, Score, ScoreArithmetic,
    StopConditionConfig, ValsetEvaluation,
};
use rand::rngs::mock::StepRng;
use rand::Rng;
use serde_json::Value;

#[derive(Clone, Copy)]
struct Floats;

fn s(x: f64) -> Score {
    Score::from_bits(x.to_bits())
}

fn f(x: Score) -> f64 {
    f64::from_bits(x.bits)
}

impl ScoreArithmetic for Floats {
    fn sum(&self, scores: &Vec<Score>) -> Score {
        s(scores.iter().map(|x| f(*x)).sum())
    }

    fn mean(&self, scores: &Vec<Score>) -> Score {
        s(scores.iter().map(|x| f(*x)).sum::<f64>() / scores.len() as f64)
    }

    fn plus(&self, a: Score, b: Score) -> Score {
        s(f(a) + f(b))
    }

    fn point(&self, word: u64, limit: Score) -> Score {
        s(StepRng::new(word, 0).gen::<f64>() * f(limit))
    }

    fn text(&self, x: Score) -> String {
        format!("{}", f(x))
    }

    fn parse(&self, token: &String) -> Option<Score> {
        token.parse::<f64>().ok().map(s)
    }
}

fn seconds(secs: u64) -> Span {
    Span { secs, nanos: 0 }
}

fn one_nano() -> Span {
    Span { secs: 0, nanos: 1 }
}

fn wait(duration: Duration) {
    let start = Instant::now();
    while start.elapsed() < duration {}
}

fn make_state_with_evals(num_evals: usize) -> GEPAState<usize> {
    let mut seed = Candidate::new();
    seed.insert("instructions".into(), "test".into());
    let outputs = (0..2).map(|i| Value::from(i)).collect();
    let eval = ValsetEvaluation::from_vecs(
        vec![0usize, 1],
        outputs,
        vec![s(0.5), s(0.8)],
        None,
        &Floats,
    );
    let mut state = GEPAState::new(seed, eval, FrontierType::Instance, None).unwrap();
    state.total_num_evals = num_evals;
    state
}

#[test]
fn max_metric_calls_fires_when_budget_exhausted() {
    let stopper = MaxMetricCallsStopper::new(100);
    let state_under = make_state_with_evals(99);
    let state_at = make_state_with_evals(100);
    let state_over = make_state_with_evals(101);
    assert!(!stopper.should_stop(&state_under));
    assert!(stopper.should_stop(&state_at));
    assert!(stopper.should_stop(&state_over));
}

#[test]
fn max_iterations_stops_after_n_iterations() {
    let stopper = MaxIterationsStopper::new(5);
    let mut state = make_state_with_evals(0);
    assert_eq!(state.i, BEFORE_FIRST_ITERATION);
    assert!(!stopper.should_stop(&state));
    state.i = 5;
    assert!(stopper.should_stop(&state));
    state.i = 4;
    assert!(!stopper.should_stop(&state));
}

#[test]
fn timeout_stopper_does_not_fire_immediately() {
    let stopper = TimeoutStopper::new(seconds(60));
    let state = make_state_with_evals(0);
    assert!(!stopper.should_stop(&state));
    assert!(stopper.remaining().is_some());
}

#[test]
fn timeout_stopper_fires_after_expiry() {
    let stopper = TimeoutStopper::new(one_nano());
    wait(Duration::from_millis(1));
    let state = make_state_with_evals(0);
    assert!(stopper.should_stop(&state));
}

#[test]
fn what_is_left_of_a_timeout() {
    let stopper = TimeoutStopper::new(Span { secs: 5, nanos: 100 });
    let elapsed = Span { secs: 2, nanos: 200 };
    let left = stopper.remaining_after(&elapsed).unwrap();
    assert_eq!((left.secs, left.nanos), (2, 999_999_900));
    assert!(!stopper.expired_after(&elapsed));
    let all = Span { secs: 5, nanos: 100 };
    assert!(stopper.expired_after(&all));
    let none = stopper.remaining_after(&all).unwrap();
    assert_eq!((none.secs, none.nanos), (0, 0));
    assert!(stopper.remaining_after(&Span { secs: 5, nanos: 101 }).is_none());
}

#[test]
fn composite_any_stops_when_one_fires() {
    let stopper: CompositeStopper<MaxMetricCallsStopper> = CompositeStopper::any()
        .push_condition(MaxMetricCallsStopper::new(1000))
        .push_condition(MaxMetricCallsStopper::new(10));
    let state_under = make_state_with_evals(9);
    let state_at = make_state_with_evals(10);
    assert!(!stopper.should_stop(&state_under));
    assert!(stopper.should_stop(&state_at));
}

#[test]
fn composite_all_requires_all_to_fire() {
    let stopper: CompositeStopper<MaxMetricCallsStopper> = CompositeStopper::all()
        .push_condition(MaxMetricCallsStopper::new(10))
        .push_condition(MaxMetricCallsStopper::new(20));
    let state_10 = make_state_with_evals(10);
    let state_20 = make_state_with_evals(20);
    assert!(!stopper.should_stop(&state_10));
    assert!(stopper.should_stop(&state_20));
}

#[test]
fn descriptions_are_human_readable() {
    let stopper = MaxMetricCallsStopper::new(200);
    assert!(StopCondition::<usize>::description(&stopper).contains("200"));
    let t = TimeoutStopper::new(seconds(30));
    assert!(StopCondition::<usize>::description(&t).contains("30"));
    assert_eq!(StopCondition::<usize>::description(&t), "Timeout(30.0s)");
    let c: CompositeStopper<MaxMetricCallsStopper> =
        CompositeStopper::any().push_condition(MaxMetricCallsStopper::new(100));
    assert!(StopCondition::<usize>::description(&c).contains("Any"));
    assert!(StopCondition::<usize>::description(&c).contains("100"));
}

#[test]
fn test_timeout_remaining_none_after_expiry() {
    let stopper = TimeoutStopper::new(one_nano());
    wait(Duration::from_millis(1));
    assert!(
        stopper.remaining().is_none(),
        "remaining() should return None after the timeout has expired"
    );
}

#[test]
fn test_composite_empty_any_returns_false() {
    let stopper: CompositeStopper<MaxMetricCallsStopper> = CompositeStopper::any();
    let state = make_state_with_evals(9999);
    assert!(
        !stopper.should_stop(&state),
        "empty any() composite must return false (no condition can fire)"
    );
}

#[test]
fn test_composite_empty_all_returns_true() {
    let stopper: CompositeStopper<MaxMetricCallsStopper> = CompositeStopper::all();
    let state = make_state_with_evals(0);
    assert!(
        stopper.should_stop(&state),
        "empty all() composite must return true (vacuous conjunction)"
    );
}

#[test]
fn file_stopper_description_contains_path() {
    let stopper = FileStopper::new("/tmp/sentinel");
    let desc = stopper.description();
    assert!(desc.contains("sentinel"), "description should contain the path");
}

#[test]
fn signal_stopper_does_not_fire_before_signal() {
    let (stopper, _flag) = SignalStopper::with_flag();
    let state = make_state_with_evals(0);
    assert!(
        !stopper.should_stop(&state),
        "SignalStopper should not fire before the flag is set"
    );
}

#[test]
fn signal_stopper_fires_after_signal() {
    let (stopper, flag) = SignalStopper::with_flag();
    let state = make_state_with_evals(0);
    flag.store(true, AtomicOrdering::SeqCst);
    assert!(
        stopper.should_stop(&state),
        "SignalStopper should fire after the flag is set"
    );
}

#[test]
fn signal_stopper_signal_method_triggers_stop() {
    let (stopper, _flag) = SignalStopper::with_flag();
    assert!(!stopper.is_set());
    stopper.signal();
    assert!(stopper.is_set());
    let state = make_state_with_evals(0);
    assert!(stopper.should_stop(&state));
}

#[test]
fn no_improvement_stopper_does_not_fire_on_first_call() {
    let stopper = NoImprovementStopper::new(3, s(0.0), Floats);
    let state = make_state_with_evals(0);
    assert!(
        !stopper.should_stop(&state),
        "NoImprovementStopper must not fire on the first call"
    );
    assert_eq!(stopper.stagnation_count(), 0);
    assert_eq!(stopper.current_best(), s(0.65));
}

#[test]
fn no_improvement_stopper_fires_after_patience_exceeded() {
    let stopper = NoImprovementStopper::new(3, s(0.0), Floats);
    let state = make_state_with_evals(0);
    assert!(!stopper.should_stop(&state));
    assert!(!stopper.should_stop(&state));
    assert!(!stopper.should_stop(&state));
    assert!(stopper.should_stop(&state));
}

#[test]
fn no_improvement_stopper_resets_on_improvement() {
    let stopper = NoImprovementStopper::new(2, s(0.0), Floats);
    let state_low = make_state_with_evals(0);
    assert!(!stopper.should_stop(&state_low));
    assert!(!stopper.should_stop(&state_low));
    let mut state_high = make_state_with_evals(0);
    let better_eval = ValsetEvaluation::from_vecs(
        vec![0usize, 1],
        vec![Value::from("a"), Value::from("b")],
        vec![s(0.9), s(1.0)],
        None,
        &Floats,
    );
    let mut better_cand = Candidate::new();
    better_cand.insert("instructions".into(), "better".into());
    state_high
        .update_state_with_new_program(vec![0], better_cand, better_eval, 2)
        .expect("update");
    assert!(!stopper.should_stop(&state_high));
    assert_eq!(stopper.stagnation_count(), 0);
}

#[test]
fn stagnation_is_counted_to_the_patience() {
    let judge = |current, threshold, count| {
        judge_stagnation(2, &s(current), &s(0.4), &s(threshold), count)
    };
    assert_eq!(judge(0.6, 0.5, 7), (s(0.6), 0, false));
    assert_eq!(judge(0.5, 0.5, 0), (s(0.4), 1, false));
    assert_eq!(judge(0.5, 0.5, 1), (s(0.4), 2, true));
}

#[test]
fn stop_condition_builds_correctly() {
    let cfg = StopConditionConfig {
        max_metric_calls: Some(100),
        max_iterations: Some(10),
        timeout: None,
    };
    let stop: CompositeStopper<Stopper<Floats>> = build_stop_condition(&cfg);
    let description = StopCondition::<usize>::description(&stop);
    assert!(description.contains("Any"));
    assert_eq!(stop.conditions.len(), 2);
    let stop: Box<dyn StopCondition<usize>> = Box::new(stop);
    assert!(stop.should_stop(&make_state_with_evals(100)));
    assert!(!stop.should_stop(&make_state_with_evals(99)));
}

#[test]
fn stop_condition_empty_uses_safety_valve() {
    let cfg = StopConditionConfig {
        max_metric_calls: None,
        max_iterations: None,
        timeout: None,
    };
    let stop: CompositeStopper<Stopper<Floats>> = build_stop_condition(&cfg);
    assert!(!StopCondition::<usize>::description(&stop).is_empty());
    let mut state = make_state_with_evals(0);
    state.i = 9_999;
    assert!(!stop.should_stop(&state));
    state.i = 10_000;
    assert!(stop.should_stop(&state));
}

#[test]
fn optimize_config_default_stop_condition() {
    let cfg: StopConditionConfig = StopConditionConfig::default();
    assert_eq!(cfg.max_metric_calls, Some(500));
}

#[test]
fn lm_config_default_values() {
    let cfg = LMConfig::default();
    assert_eq!(cfg.model, "gpt-4o-mini");
    assert_eq!(cfg.max_retries, 3);
}

#[test]
fn optimize_config_defaults() {
    let cfg = OptimizeConfig::new(Candidate::new(), LMConfig::default());
    assert_eq!(cfg.minibatch_size, 3);
    assert!(cfg.use_merge);
    assert_eq!(cfg.max_merge_invocations, 20);
    assert!(cfg.run_dir.is_none() && cfg.rng_seed.is_none());
}
