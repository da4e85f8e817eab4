#![allow(dead_code)]
use std::collections::HashSet;

use gepa::assembly::{assemble, Assembly, ConfiguredSelector};
use gepa::keyed::{from_pairs, to_pairs};
use gepa::optimizer::engine::{
    absorb_full_evaluation, check_valset, merge_accepted_event, merge_rejected_event, open_run,
    plan_full_evaluation, seed_state, sync_cache, EngineSettings,
};
use gepa::optimizer::full_eval::{
    build_valset_evaluation_with_metric_delta, merge_cached_and_uncached, FullValsetEvaluation,
};
use gepa::optimizer::run::{is_sound, Phase, Run};
use gepa::optimizer::state::StepKind;
use gepa::strategies::batch_sampler::{BatchSampler, EpochShuffledSampler};
use gepa::strategies::candidate_selector::{CandidateSelector, CurrentBestSelector};
use gepa::strategies::component_selector::{
    AllComponentSelector, ComponentSelector, RoundRobinSelector,
};
use gepa::strategies::eval_policy::FullEvalPolicy;
use gepa::strategies::markdown::Json;
use gepa::utils::stop_condition::{MaxIterationsStopper, StopCondition};
use gepa::{
    CachedEvaluation, Candidate, CandidateSelectorKind, EvaluationBatch, EvaluationCache, FrontierType, GEPAError,
    GEPAResult, GEPAState, KeyMap, LMConfig, MergeProposer, ObjectiveScores, OptimizeConfig,
    ReflectiveMutationProposer, Score, ScoreArithmetic, ValsetEvaluation,
};
use rand::rngs::mock::StepRng;
use rand::Rng;
use serde_json::Value;

#[derive(Clone, Copy)]
struct Floats;

fn s(x: f64) -> Score {
    Score::from_bits(x.to_bits())
}

fn f(x: Score) -> f64 {
    f64::from_bits(x.bits)
}

impl ScoreArithmetic for Floats {
    fn sum(&self, scores: &Vec<Score>) -> Score {
        s(scores.iter().map(|x| f(*x)).sum())
    }

    fn mean(&self, scores: &Vec<Score>) -> Score {
        s(scores.iter().map(|x| f(*x)).sum::<f64>() / scores.len() as f64)
    }

    fn plus(&self, a: Score, b: Score) -> Score {
        s(f(a) + f(b))
    }

    fn point(&self, word: u64, limit: Score) -> Score {
        s(StepRng::new(word, 0).gen::<f64>() * f(limit))
    }

    fn text(&self, x: Score) -> String {
        format!("{}", f(x))
    }

    fn parse(&self, token: &String) -> Option<Score> {
        token.parse::<f64>().ok().map(s)
    }
}

fn scores(list: &[f64]) -> Vec<Score> {
    list.iter().map(|x| s(*x)).collect()
}

fn candidate(entries: &[(&str, &str)]) -> Candidate {
    entries.iter().map(|(k, v)| (k.to_string(), v.to_string())).collect()
}

fn batch(outputs: &[&str], list: &[f64]) -> EvaluationBatch<(), Value> {
    EvaluationBatch::new(outputs.iter().map(|o| Value::from(*o)).collect(), scores(list))
}

fn outcome_of(
    ids: &[usize],
    b: &EvaluationBatch<(), Value>,
) -> Result<FullValsetEvaluation<usize>, GEPAError> {
    build_valset_evaluation_with_metric_delta(ids, b, ids.len(), &Floats)
}

/// What stands for the evaluator and the language model.
struct World {
    score: fn(&Candidate, usize) -> f64,
    traces: bool,
    records: bool,
    reply: Option<&'static str>,
    evaluated: usize,
}

impl World {
    fn flat(score: fn(&Candidate, usize) -> f64) -> World {
        World {
            score,
            traces: true,
            records: true,
            reply: Some("```\nImproved instructions v2\n```"),
            evaluated: 0,
        }
    }

    fn scores_of(&mut self, c: &Candidate, ids: &[usize]) -> Vec<Score> {
        self.evaluated += ids.len();
        ids.iter().map(|id| s((self.score)(c, *id))).collect()
    }
}

#[derive(Debug, PartialEq)]
enum Came {
    Stopped,
    ToNothing,
    To(usize),
}

fn record() -> Json {
    Json::Object(vec![
        ("Inputs".to_string(), Json::Text("x".to_string())),
        ("Feedback".to_string(), Json::Text("ok".to_string())),
    ])
}

/// Make one iteration.
fn iterate<S, C, B>(
    run: &mut Run<usize, S, C, B, Floats>,
    world: &mut World,
    stop: &dyn StopCondition<usize>,
) -> Result<Came, GEPAError>
where
    S: CandidateSelector<usize>,
    C: ComponentSelector<usize>,
    B: BatchSampler<usize>,
{
    run.advance();
    let over = stop.should_stop(&run.state);
    if run.begin(over)?.is_some() {
        return Ok(Came::ToNothing);
    }
    loop {
        match &run.phase {
            Phase::Idle | Phase::Deciding => unreachable!(),
            Phase::Over => return Ok(Came::Stopped),
            Phase::TryingParent { trial } => {
                let list = world.scores_of(&trial.candidate, &trial.ids);
                let traces = if world.traces { Some(trial.ids.len()) } else { None };
                if run.parent_tried(list, traces)?.is_some() {
                    return Ok(Came::ToNothing);
                }
            }
            Phase::Reflecting { names, .. } => {
                let mut dataset = KeyMap::new();
                for name in names {
                    let records = if world.records { vec![record()] } else { vec![] };
                    dataset.insert(name.clone(), records);
                }
                run.dataset_built(&dataset);
            }
            Phase::Asking { requests, .. } => {
                let replies: Vec<Option<String>> =
                    requests.iter().map(|_| world.reply.map(String::from)).collect();
                if run.answered(&replies)?.is_some() {
                    return Ok(Came::ToNothing);
                }
            }
            Phase::TryingMutation { trial, candidate, .. } => {
                let list = world.scores_of(candidate, &trial.ids);
                if run.mutation_tried(list).is_some() {
                    return Ok(Came::ToNothing);
                }
            }
            Phase::TryingMerge { plan } => {
                let list = world.scores_of(&plan.program, &plan.subsample_ids);
                if run.merge_tried(list).is_some() {
                    return Ok(Came::ToNothing);
                }
            }
            Phase::Evaluating { candidate, plan, .. } => {
                let list = world.scores_of(candidate, &plan.uncached_ids);
                let outputs = plan.uncached_ids.iter().map(|id| Value::from(*id)).collect();
                let b: EvaluationBatch<(), Value> = EvaluationBatch::new(outputs, list);
                run.evaluated(&b)?;
            }
            Phase::Adding { .. } => {
                let (new, best) = run.added()?;
                assert_eq!(new.is_best_program, new.average_score.reaches(&best));
                return Ok(Came::To(new.new_idx));
            }
        }
    }
}

type Toy = Run<usize, CurrentBestSelector, AllComponentSelector, EpochShuffledSampler<usize>, Floats>;

fn proposer(
    minibatch: usize,
) -> ReflectiveMutationProposer<CurrentBestSelector, AllComponentSelector, EpochShuffledSampler<usize>>
{
    ReflectiveMutationProposer {
        candidate_selector: CurrentBestSelector,
        component_selector: AllComponentSelector,
        batch_sampler: EpochShuffledSampler::new(minibatch, 42).expect("valid sampler"),
        reflection_prompt_template: None,
        perfect_score: Some(s(1.0)),
        skip_perfect_score: false,
    }
}

fn settings(cache_evaluation: bool) -> EngineSettings {
    EngineSettings {
        frontier_type: FrontierType::Instance,
        track_best_outputs: true,
        cache_evaluation,
    }
}

fn toy_run(world: &mut World, use_merge: bool, cache: bool) -> Toy {
    let seed = candidate(&[("instructions", "Do the task well.")]);
    let ids = vec![0usize, 1];
    check_valset(ids.len()).expect("there are validation examples");
    let list: Vec<f64> = world.scores_of(&seed, &ids).iter().map(|x| f(*x)).collect();
    let outcome = outcome_of(&ids, &batch(&["val0", "val1"], &list)).expect("valid batch");
    let evals = outcome.metric_evals;
    let mut state =
        seed_state(&seed, &ids, outcome, &settings(cache)).expect("state should construct");
    let budget = open_run(&mut state, &settings(cache), evals).expect("there is a candidate");
    assert_eq!((budget.metric_calls_used, budget.metric_calls_delta), (2, 2));
    assert!(is_sound(&state));
    let merge = MergeProposer::new(use_merge, 5, 1, 42).expect("valid merge proposer");
    Run::new(state, vec![0, 1], ids, proposer(2), merge, Floats)
}

fn whole_run(run: &mut Toy, world: &mut World, iterations: usize) -> GEPAResult<usize> {
    let stop = MaxIterationsStopper::new(iterations);
    while iterate(run, world, &stop).expect("run should go on") != Came::Stopped {}
    run.finish(&FullEvalPolicy, None, None, None).expect("there is a best candidate").1
}

#[test]
fn engine_runs_and_returns_result() {
    let mut world = World::flat(|_, _| 1.0);
    world.traces = false;
    let mut run = toy_run(&mut world, false, false);
    assert!(whole_run(&mut run, &mut world, 2).num_candidates() >= 1);
}

#[test]
fn engine_seed_candidate_is_first() {
    let mut world = World::flat(|_, _| 1.0);
    let mut run = toy_run(&mut world, false, false);
    let result = whole_run(&mut run, &mut world, 1);
    assert_eq!(result.candidates[0].get("instructions").unwrap(), "Do the task well.");
}

#[test]
fn engine_respects_stop_at_zero_iterations() {
    let mut world = World::flat(|_, _| 1.0);
    let mut run = toy_run(&mut world, false, false);
    assert_eq!(whole_run(&mut run, &mut world, 0).num_candidates(), 1);
    assert_eq!(world.evaluated, 2, "only the seed was evaluated");
}

#[test]
fn engine_resume_skips_seed_evaluation() {
    let seed = candidate(&[("instructions", "saved")]);
    let eval = ValsetEvaluation::from_vecs(
        vec![0usize],
        vec![Value::from("saved-output")],
        scores(&[0.7]),
        None,
        &Floats,
    );
    let mut saved_state =
        GEPAState::new_with_options(seed, eval, FrontierType::Instance, None, true)
            .expect("state should construct");
    saved_state.num_full_ds_evals = 1;
    saved_state.total_num_evals = 1;
    let mut state = GEPAState::restore(saved_state.record(), &Floats);
    let budget = open_run(&mut state, &settings(false), 0).expect("there is a candidate");
    assert_eq!((budget.metric_calls_used, budget.metric_calls_delta), (1, 0));
    assert!(is_sound(&state));
    let merge = MergeProposer::new(false, 0, 1, 0).expect("valid merge proposer");
    let mut run: Toy = Run::new(state, vec![0], vec![0], proposer(1), merge, Floats);
    let mut world = World::flat(|_, _| panic!("seed evaluation should have been skipped"));
    let result = whole_run(&mut run, &mut world, 0);
    assert_eq!(result.num_candidates(), 1);
    assert_eq!(result.val_aggregate_scores, scores(&[0.7]));
}

#[test]
fn engine_empty_valset_returns_error() {
    assert!(
        matches!(check_valset(0), Err(GEPAError::Config(_))),
        "empty valset should produce a Config error"
    );
}

#[test]
fn a_state_without_candidates_starts_no_run() {
    let mut world = World::flat(|_, _| 1.0);
    let mut state = toy_run(&mut world, false, false).state;
    state.program_candidates.clear();
    assert!(matches!(open_run(&mut state, &settings(false), 0), Err(GEPAError::NoCandidates)));
}

#[test]
fn build_valset_evaluation_maps_correctly() {
    let ids = vec![0usize, 1, 2];
    let eval = outcome_of(&ids, &batch(&["a", "b", "c"], &[0.3, 0.6, 0.9])).expect("valid batch");
    assert_eq!(eval.valset_evaluation.scores_by_val_id.get(&0), Some(&s(0.3)));
    assert_eq!(eval.valset_evaluation.scores_by_val_id.get(&1), Some(&s(0.6)));
    assert_eq!(eval.valset_evaluation.scores_by_val_id.get(&2), Some(&s(0.9)));
    assert_eq!(eval.valset_evaluation.outputs_by_val_id.get(&0), Some(&Value::from("a")));
    assert!(eval.valset_evaluation.objective_scores_by_val_id.is_none());
}

#[test]
fn build_valset_evaluation_rejects_length_mismatch() {
    let ids = vec![0usize, 1, 2];
    let err = outcome_of(&ids, &batch(&["a"], &[0.3])).err().unwrap();
    assert!(err.to_string().contains("batch of 3"));
}

#[test]
fn test_build_valset_evaluation_with_objectives() {
    let ids = vec![0usize, 1];
    let row = |x: f64| -> ObjectiveScores {
        let mut m = KeyMap::new();
        m.insert("precision".to_string(), s(x));
        m
    };
    let b = batch(&["a", "b"], &[0.8, 0.6]).with_objective_scores(vec![row(0.8), row(0.6)]);
    let eval = outcome_of(&ids, &b).expect("valid batch");
    assert!(
        eval.valset_evaluation.objective_scores_by_val_id.is_some(),
        "objective_scores_by_val_id should be Some when batch contains objective_scores"
    );
    let obj_by_id = eval.valset_evaluation.objective_scores_by_val_id.unwrap();
    assert_eq!(obj_by_id.len(), 2, "should have one entry per val_id");
    let precision = |id: usize| f(*obj_by_id.get(&id).unwrap().get(&"precision".to_string()).unwrap());
    assert!((precision(0) - 0.8).abs() < f64::EPSILON, "precision for id=0 should be 0.8");
    assert!((precision(1) - 0.6).abs() < f64::EPSILON, "precision for id=1 should be 0.6");
}

#[test]
fn evaluate_valset_with_cache_only_evaluates_misses() {
    let seed = candidate(&[("instructions", "seed")]);
    let seed_eval = ValsetEvaluation::from_vecs(
        vec![0usize, 1, 2],
        vec![Value::from("seed0"), Value::from("seed1"), Value::from("seed2")],
        scores(&[0.1, 0.1, 0.1]),
        None,
        &Floats,
    );
    let mut cache = EvaluationCache::new();
    cache.put(&seed, &0usize, Value::from("cached-output"), s(0.9), None);
    let mut state = GEPAState::new(seed.clone(), seed_eval, FrontierType::Instance, Some(cache))
        .expect("state should construct");
    let ids = vec![0usize, 1, 2];
    let plan = plan_full_evaluation(&state, &seed, &ids);
    assert_eq!(plan.uncached_ids, vec![1, 2]);
    let outcome = absorb_full_evaluation(
        &mut state,
        &seed,
        &ids,
        &plan,
        &batch(&["miss1", "miss2"], &[0.5, 0.5]),
        &Floats,
    )
    .expect("cache-backed evaluation should succeed");
    assert_eq!(outcome.metric_evals, 2);
    assert_eq!(outcome.scores, scores(&[0.9, 0.5, 0.5]));
    assert_eq!(outcome.outputs[0], Value::from("cached-output"));
    assert_eq!(state.evaluation_cache.as_ref().map(EvaluationCache::len), Some(3));
    let again = plan_full_evaluation(&state, &seed, &ids);
    assert!(again.uncached_ids.is_empty(), "a second evaluation evaluates nothing");
    let outcome =
        absorb_full_evaluation(&mut state, &seed, &ids, &again, &batch(&[], &[]), &Floats)
            .expect("all results are cached");
    assert_eq!(outcome.metric_evals, 0);
    assert_eq!(outcome.scores, scores(&[0.9, 0.5, 0.5]));
}

#[test]
fn an_invalid_batch_leaves_the_cache_alone() {
    let mut world = World::flat(|_, _| 0.5);
    let mut state = toy_run(&mut world, false, true).state;
    let other = candidate(&[("instructions", "other")]);
    let ids = vec![0usize, 1];
    let plan = plan_full_evaluation(&state, &other, &ids);
    let r = absorb_full_evaluation(
        &mut state,
        &other,
        &ids,
        &plan,
        &batch(&["a"], &[0.5]),
        &Floats,
    );
    assert!(matches!(r, Err(GEPAError::Evaluation(_))));
    assert_eq!(state.evaluation_cache.as_ref().map(EvaluationCache::len), Some(2));
    sync_cache(&mut state, false);
    assert!(state.evaluation_cache.is_none());
    sync_cache(&mut state, true);
    assert!(state.evaluation_cache.as_ref().unwrap().is_empty());
}

#[test]
fn test_mutation_rejection_when_no_improvement() {
    let mut world = World::flat(|_, _| 0.5);
    let mut run = toy_run(&mut world, false, false);
    let result = whole_run(&mut run, &mut world, 3);
    assert_eq!(
        result.num_candidates(),
        1,
        "no candidate should be accepted when there is no strict improvement"
    );
    assert_eq!(run.state.full_program_trace.len(), 3);
    assert!(run.state.full_program_trace.iter().all(|t| !t.accepted));
    assert_eq!(run.state.total_num_evals, 2 + 3 * 4);
}

#[test]
fn test_stop_condition_respected_mid_run() {
    let mut world = World::flat(|_, _| 1.0);
    let mut run = toy_run(&mut world, false, false);
    whole_run(&mut run, &mut world, 3);
    assert_eq!(run.state.full_program_trace.len(), 3, "exactly 3 iterations should be made");
    assert_eq!(run.state.i, 3);
}

fn improving(c: &Candidate, _: usize) -> f64 {
    if c.get("instructions").unwrap() == "Improved instructions v2" {
        0.9
    } else {
        0.25
    }
}

#[test]
fn a_better_mutation_is_accepted() {
    let mut world = World::flat(improving);
    let mut run = toy_run(&mut world, true, false);
    let stop = MaxIterationsStopper::new(10);
    assert_eq!(iterate(&mut run, &mut world, &stop).unwrap(), Came::To(1));
    assert_eq!(run.state.program_candidates.len(), 2);
    assert_eq!(run.state.parent_program_for_candidate[1], vec![Some(0)]);
    assert_eq!(run.state.num_full_ds_evals, 2);
    assert_eq!(run.state.total_num_evals, 2 + 2 + 2 + 2);
    assert_eq!(run.state.num_metric_calls_by_discovery, vec![0, 8]);
    let trace = &run.state.full_program_trace[0];
    assert_eq!((trace.iteration, trace.accepted, trace.new_program_idx), (0, true, Some(1)));
    assert!(matches!(trace.tag, StepKind::ReflectiveMutation));
    assert_eq!(run.merge.merges_due, 1, "a merge follows");
    assert_eq!(iterate(&mut run, &mut world, &stop).unwrap(), Came::ToNothing);
    assert!(matches!(run.state.full_program_trace[1].tag, StepKind::Merge));
    let (best, result) = run.finish(&FullEvalPolicy, None, Some(3), None).unwrap();
    assert_eq!(best, 1);
    assert_eq!(result.best_candidate().unwrap(), &run.state.program_candidates[1]);
    assert_eq!(result.seed, Some(3));
}

#[test]
fn cached_candidates_cost_nothing() {
    let mut world = World::flat(improving);
    let mut run = toy_run(&mut world, false, true);
    let stop = MaxIterationsStopper::new(10);
    assert_eq!(iterate(&mut run, &mut world, &stop).unwrap(), Came::To(1));
    assert_eq!(run.state.evaluation_cache.as_ref().map(EvaluationCache::len), Some(4));
}

#[test]
fn a_merge_brings_improvements_together() {
    let score = |c: &Candidate, id: usize| -> f64 {
        let a = c.get("a").unwrap() == "v1";
        let b = c.get("b").unwrap() == "w1";
        match (a, b) {
            (true, true) => 1.0,
            (true, false) => [0.9, 0.2, 0.5][id],
            (false, true) => [0.2, 0.9, 0.5][id],
            (false, false) => 0.1,
        }
    };
    let evaluation = |c: &Candidate| {
        ValsetEvaluation::from_vecs(
            vec![0usize, 1, 2],
            vec![Value::Null, Value::Null, Value::Null],
            (0..3).map(|id| s(score(c, id))).collect(),
            None,
            &Floats,
        )
    };
    let c0 = candidate(&[("a", "v0"), ("b", "w0")]);
    let c1 = candidate(&[("a", "v1"), ("b", "w0")]);
    let c2 = candidate(&[("a", "v0"), ("b", "w1")]);
    let mut state =
        GEPAState::new(c0.clone(), evaluation(&c0), FrontierType::Instance, None).unwrap();
    state.update_state_with_new_program(vec![0], c1.clone(), evaluation(&c1), 3).unwrap();
    state.update_state_with_new_program(vec![0], c2.clone(), evaluation(&c2), 6).unwrap();
    let mut merge = MergeProposer::new(true, 1, 1, 42).expect("valid merge proposer");
    merge.last_iter_found_new_program = true;
    merge.schedule_if_needed();
    assert!(is_sound(&state));
    let mut run: Toy = Run::new(state, vec![0], vec![0, 1, 2], proposer(1), merge, Floats);
    let mut world = World::flat(score);
    let stop = MaxIterationsStopper::new(10);
    assert_eq!(iterate(&mut run, &mut world, &stop).unwrap(), Came::To(3));
    assert_eq!(run.state.program_candidates[3], candidate(&[("a", "v1"), ("b", "w1")]));
    assert_eq!(run.state.parent_program_for_candidate[3], vec![Some(1), Some(2)]);
    assert_eq!((run.merge.merges_due, run.merge.total_merges_tested), (0, 1));
    assert!(matches!(run.state.full_program_trace[0].tag, StepKind::Merge));
    run.merge.schedule_if_needed();
    assert_eq!(run.merge.merges_due, 0, "the budget is used up");
}

#[test]
fn objective_scores_that_are_missing_end_the_run() {
    let mut world = World::flat(improving);
    let mut run = toy_run(&mut world, false, false);
    run.state.frontier_type = FrontierType::Objective;
    let err = iterate(&mut run, &mut world, &MaxIterationsStopper::new(10)).err().unwrap();
    assert_eq!(
        err.to_string(),
        "Configuration error: frontier_type=Objective requires objective_scores in \
         valset_evaluation"
    );
    assert_eq!(run.state.program_candidates.len(), 2, "the candidate was added all the same");
    assert!(matches!(run.phase, Phase::Over));
    let seed = candidate(&[("instructions", "x")]);
    let outcome = outcome_of(&[0], &batch(&["a"], &[0.5])).unwrap();
    let with_objectives = EngineSettings {
        frontier_type: FrontierType::Hybrid,
        track_best_outputs: false,
        cache_evaluation: false,
    };
    assert!(matches!(
        seed_state(&seed, &vec![0], outcome, &with_objectives),
        Err(GEPAError::Config(_))
    ));
}

fn proposer_state() -> GEPAState<usize> {
    let eval = ValsetEvaluation::from_vecs(
        vec![0usize, 1, 2],
        vec![Value::from("a"), Value::from("b"), Value::from("c")],
        scores(&[0.5, 0.6, 0.7]),
        None,
        &Floats,
    );
    GEPAState::new(
        candidate(&[("instructions", "Seed instruction.")]),
        eval,
        FrontierType::Instance,
        None,
    )
    .expect("should construct")
}

fn proposing_run(trainset: usize) -> Toy {
    let merge = MergeProposer::new(false, 0, 1, 0).expect("valid merge proposer");
    let train_ids = (0..trainset).collect();
    Run::new(proposer_state(), train_ids, vec![0, 1, 2], proposer(2), merge, Floats)
}

fn never() -> MaxIterationsStopper {
    MaxIterationsStopper::new(1000)
}

#[test]
fn propose_mut_returns_proposal_for_non_perfect_scores() {
    let mut run = proposing_run(3);
    let mut world = World::flat(|_, _| 1.0);
    assert_eq!(iterate(&mut run, &mut world, &never()).unwrap(), Came::ToNothing);
    assert_eq!(run.state.total_num_evals, 4, "the mutation was tried on the minibatch");
}

#[test]
fn propose_mut_skips_when_all_perfect_and_flag_set() {
    let mut run = proposing_run(2);
    run.mutation.skip_perfect_score = true;
    run.mutation.perfect_score = Some(s(1.0));
    let mut world = World::flat(|_, _| 1.0);
    assert_eq!(iterate(&mut run, &mut world, &never()).unwrap(), Came::ToNothing);
    assert_eq!(run.state.total_num_evals, 2, "nothing was mutated");
}

#[test]
fn propose_mut_skips_empty_trainset() {
    let mut run = proposing_run(0);
    let mut world = World::flat(|_, _| 1.0);
    let result = iterate(&mut run, &mut world, &never());
    assert!(result.is_err(), "empty trainset should cause an error");
    assert!(matches!(run.phase, Phase::Over));
}

#[test]
fn test_lm_returns_empty_string_errors() {
    let mut run = proposing_run(2);
    let mut world = World::flat(|_, _| 1.0);
    world.reply = Some("");
    let result = iterate(&mut run, &mut world, &never());
    assert!(result.is_ok(), "a blank answer is no error of the run");
    assert_eq!(result.unwrap(), Came::ToNothing);
    assert_eq!(run.state.total_num_evals, 2);
}

#[test]
fn a_language_model_that_fails_gives_no_text() {
    let mut run = proposing_run(2);
    let mut world = World::flat(|_, _| 1.0);
    world.reply = None;
    assert_eq!(iterate(&mut run, &mut world, &never()).unwrap(), Came::ToNothing);
}

#[test]
fn test_adapter_returns_no_trajectories() {
    let mut run = proposing_run(2);
    let mut world = World::flat(|_, _| 0.5);
    world.traces = false;
    assert_eq!(
        iterate(&mut run, &mut world, &never()).unwrap(),
        Came::ToNothing,
        "missing trajectories should come to nothing"
    );
    assert_eq!(run.state.total_num_evals, 2);
}

#[test]
fn test_empty_reflective_dataset_returns_none() {
    let mut run = proposing_run(2);
    let mut world = World::flat(|_, _| 0.5);
    world.records = false;
    assert_eq!(
        iterate(&mut run, &mut world, &never()).unwrap(),
        Came::ToNothing,
        "empty reflective dataset for all components should come to nothing"
    );
    assert_eq!(run.state.total_num_evals, 2);
}

#[test]
fn test_round_robin_selects_different_components() {
    let eval = ValsetEvaluation::from_vecs(
        vec![0usize, 1, 2],
        vec![Value::from("a"), Value::from("b"), Value::from("c")],
        scores(&[0.5, 0.6, 0.7]),
        None,
        &Floats,
    );
    let seed = candidate(&[("comp_a", "text_a"), ("comp_b", "text_b")]);
    let state =
        GEPAState::new(seed, eval, FrontierType::Instance, None).expect("should construct");
    let mutation = ReflectiveMutationProposer {
        candidate_selector: CurrentBestSelector,
        component_selector: RoundRobinSelector,
        batch_sampler: EpochShuffledSampler::new(2, 1).unwrap(),
        reflection_prompt_template: None,
        perfect_score: None,
        skip_perfect_score: false,
    };
    let merge = MergeProposer::new(false, 0, 1, 0).unwrap();
    let mut run = Run::new(state, vec![0, 1, 2], vec![0, 1, 2], mutation, merge, Floats);
    let mut seen: HashSet<String> = HashSet::new();
    for _ in 0..2 {
        run.advance();
        assert!(run.begin(false).unwrap().is_none());
        assert!(run.parent_tried(scores(&[0.5, 0.5]), Some(2)).unwrap().is_none());
        let names = match &run.phase {
            Phase::Reflecting { names, .. } => names.clone(),
            _ => unreachable!(),
        };
        assert_eq!(names.len(), 1);
        let mut dataset = KeyMap::new();
        dataset.insert(names[0].clone(), vec![record()]);
        run.dataset_built(&dataset);
        let answer = Some("```\nImproved instruction text.\n```".to_string());
        assert!(run.answered(&vec![answer]).unwrap().is_none());
        match &run.phase {
            Phase::TryingMutation { candidate, .. } => {
                assert_eq!(candidate.get(&names[0]).unwrap(), "Improved instruction text.");
                assert_eq!(candidate.len(), 2);
                for (name, text) in candidate {
                    assert!(name == &names[0] || text.starts_with("text_"));
                }
            }
            _ => unreachable!(),
        }
        assert!(run.mutation_tried(scores(&[0.5, 0.5])).is_some());
        seen.insert(names[0].clone());
    }
    assert_eq!(seen.len(), 2, "successive mutations should update different components");
}

#[test]
fn what_is_asked_names_the_component() {
    let mut run = proposing_run(2);
    run.advance();
    run.begin(false).unwrap();
    run.parent_tried(scores(&[0.5, 0.5]), Some(2)).unwrap();
    let mut dataset = KeyMap::new();
    dataset.insert("instructions".to_string(), vec![record()]);
    run.dataset_built(&dataset);
    match &run.phase {
        Phase::Asking { requests, .. } => {
            assert_eq!(requests.len(), 1);
            assert_eq!(requests[0].component, "instructions");
            assert!(requests[0].prompt.contains("Seed instruction."));
            assert!(requests[0].prompt.contains("## Inputs"));
        }
        _ => unreachable!(),
    }
}

#[test]
fn texts_for_unknown_components_are_refused() {
    let mut run = proposing_run(2);
    run.advance();
    run.begin(false).unwrap();
    run.parent_tried(scores(&[0.5, 0.5]), Some(2)).unwrap();
    match &mut run.phase {
        Phase::Reflecting { names, .. } => names[0] = "other".to_string(),
        _ => unreachable!(),
    }
    let mut dataset = KeyMap::new();
    dataset.insert("other".to_string(), vec![record()]);
    run.dataset_built(&dataset);
    let err = run.answered(&vec![Some("text".to_string())]).err().unwrap();
    assert_eq!(
        err.to_string(),
        "Proposal error: proposed component 'other' is not a key in the current candidate"
    );
}

#[test]
fn a_run_goes_on_from_what_was_saved() {
    let mut world = World::flat(improving);
    let mut run = toy_run(&mut world, false, true);
    iterate(&mut run, &mut world, &never()).unwrap();
    let restored = GEPAState::restore(run.state.record(), &Floats);
    assert!(is_sound(&restored));
    assert_eq!(restored.program_candidates, run.state.program_candidates);
    assert_eq!(
        restored.program_full_scores_val_set(),
        run.state.program_full_scores_val_set()
    );
    assert_eq!(restored.evaluation_cache.as_ref().map(EvaluationCache::len), Some(4));
}

#[test]
fn unsound_states_are_told_apart() {
    let mut state = proposer_state();
    assert!(is_sound(&state));
    state.parent_program_for_candidate = vec![vec![Some(0)]];
    assert!(!is_sound(&state));
    let mut state = proposer_state();
    state.program_at_pareto_front_valset.insert(7, HashSet::from([1]));
    assert!(!is_sound(&state));
}

fn config() -> OptimizeConfig {
    OptimizeConfig::new(candidate(&[("instructions", "x")]), LMConfig::default())
}

#[test]
fn a_configuration_gives_its_parts() {
    let parts: Assembly<usize, Floats> = assemble(config(), Floats).ok().unwrap();
    assert!(matches!(parts.mutation.candidate_selector, ConfiguredSelector::Pareto(_)));
    assert_eq!(parts.mutation.batch_sampler.minibatch_size, 3);
    assert_eq!(parts.merge.max_merge_invocations, 20);
    assert_eq!(parts.stop.conditions.len(), 1);
    let mut world = World::flat(improving);
    let state = toy_run(&mut world, false, false).state;
    let mut run =
        Run::new(state, vec![0, 1], vec![0, 1], parts.mutation, parts.merge, Floats);
    assert_eq!(iterate(&mut run, &mut world, &parts.stop).unwrap(), Came::To(1));
}

#[test]
fn a_configuration_gives_its_seed() {
    let ids: Vec<usize> = (0..50).collect();
    let mut world = World::flat(improving);
    let state = toy_run(&mut world, false, false).state;
    let order = |seed: Option<u64>| {
        let mut c = config();
        c.rng_seed = seed;
        let mut parts: Assembly<usize, Floats> = assemble(c, Floats).ok().unwrap();
        parts.mutation.batch_sampler.next_batch_ids(&ids, &state).unwrap();
        parts.mutation.batch_sampler.shuffled_ids
    };
    let mut sampler = EpochShuffledSampler::new(3, 7).unwrap();
    sampler.next_batch_ids(&ids, &state).unwrap();
    assert_eq!(order(Some(7)), sampler.shuffled_ids);
    assert_ne!(order(Some(7)), order(Some(8)));
    assert_eq!(order(None), order(None));
}

#[test]
fn a_missing_result_is_named_as_for_debugging() {
    let ids = vec!["a\u{7f}".to_string()];
    let none: KeyMap<String, CachedEvaluation> = KeyMap::new();
    match merge_cached_and_uncached(&ids, &none, &vec![], None, &Floats) {
        Err(GEPAError::Evaluation(text)) => {
            assert_eq!(text, "missing output for validation id \"a\\u{7f}\"");
        }
        _ => panic!("a result is missing"),
    }
}

#[test]
fn means_stay_those_of_the_scores() {
    let parts: Assembly<usize, Floats> = assemble(config(), Floats).ok().unwrap();
    let mut world = World::flat(improving);
    let state = toy_run(&mut world, false, false).state;
    let mut run =
        Run::new(state, vec![0, 1], vec![0, 1], parts.mutation, parts.merge, Floats);
    for _ in 0..2 {
        iterate(&mut run, &mut world, &parts.stop).unwrap();
        for (i, m) in run.state.prog_candidate_val_subscores.iter().enumerate() {
            let list: Vec<Score> = to_pairs(m).into_iter().map(|(_, x)| x).collect();
            assert_eq!(run.state.get_program_average_val_subset(i).0, Floats.mean(&list));
        }
    }
    assert!(run.state.program_candidates.len() > 1);
}

#[test]
fn a_faulty_configuration_is_refused() {
    let fault = |c: OptimizeConfig| -> String {
        let r: Result<Assembly<usize, Floats>, GEPAError> = assemble(c, Floats);
        r.err().unwrap().to_string()
    };
    let mut c = config();
    c.candidate_selector = CandidateSelectorKind::EpsilonGreedy;
    c.epsilon = s(1.5);
    assert_eq!(
        fault(c),
        "Configuration error: Invalid epsilon: Configuration error: epsilon must be in \
         [0.0, 1.0], got 1.5"
    );
    let mut c = config();
    c.minibatch_size = 0;
    assert_eq!(
        fault(c),
        "Configuration error: Invalid minibatch_size: Configuration error: minibatch_size must \
         be at least 1"
    );
    let mut c = config();
    c.val_overlap_floor = 0;
    assert_eq!(
        fault(c),
        "Configuration error: Failed to construct MergeProposer: Configuration error: \
         val_overlap_floor must be a positive integer"
    );
}

#[test]
fn observers_hear_of_merges() {
    let rejected = merge_rejected_event(4, &vec![1, 2]);
    assert_eq!((rejected.iteration, rejected.parent_ids), (4, vec![1, 2]));
    assert_eq!(rejected.reason, "sum(new) < max(sum_p1, sum_p2)");
    let accepted = merge_accepted_event(4, 3, &vec![1, 2]);
    assert_eq!((accepted.new_candidate_idx, accepted.parent_ids), (3, vec![1, 2]));
}

#[test]
fn test_serde_vec_of_maps_round_trip() {
    let map = |entries: &[(&str, f64)]| -> ObjectiveScores {
        let mut m = KeyMap::new();
        for (k, v) in entries {
            m.insert(k.to_string(), s(*v));
        }
        m
    };
    let data = vec![map(&[("alpha", 1.0), ("beta", 2.5)]), map(&[]), map(&[("gamma", 0.0)])];
    let pairs: Vec<Vec<(String, f64)>> = data
        .iter()
        .map(|m| to_pairs(m).into_iter().map(|(k, v)| (k, f(v))).collect())
        .collect();
    let json = serde_json::to_string(&pairs).expect("serialisation must succeed");
    let read: Vec<Vec<(String, f64)>> =
        serde_json::from_str(&json).expect("deserialisation must succeed");
    let recovered: Vec<ObjectiveScores> = read
        .into_iter()
        .map(|list| from_pairs(list.into_iter().map(|(k, v)| (k, s(v))).collect()))
        .collect();
    assert_eq!(recovered.len(), 3, "round-trip must preserve the number of maps");
    assert!(recovered[1].is_empty(), "empty map at index 1 must survive round-trip");
    assert_eq!(recovered[0].get(&"alpha".to_string()).copied(), Some(s(1.0)));
    assert_eq!(recovered[2].get(&"gamma".to_string()).copied(), Some(s(0.0)));
}

#[test]
fn texts_of_the_evaluator_take_the_place_of_answers() {
    let mut run = proposing_run(2);
    run.advance();
    run.begin(false).unwrap();
    run.parent_tried(scores(&[0.5, 0.5]), Some(2)).unwrap();
    assert!(run.texts_given(&candidate(&[("instructions", "New.")])).unwrap().is_none());
    match &run.phase {
        Phase::TryingMutation { candidate, .. } => {
            assert_eq!(candidate.get("instructions").unwrap(), "New.");
        }
        _ => unreachable!(),
    }
    let mut run = proposing_run(2);
    run.advance();
    run.begin(false).unwrap();
    run.parent_tried(scores(&[0.5, 0.5]), Some(2)).unwrap();
    assert!(run.texts_given(&candidate(&[])).unwrap().is_some());
    assert!(matches!(run.phase, Phase::Idle));
}

#[test]
fn one_accepted_mutation_takes_ten_evaluations() {
    let score = |c: &Candidate, _: usize| -> f64 {
        if c.get("instructions").unwrap().contains("improved rubric") {
            1.0
        } else {
            0.2
        }
    };
    let mut c = OptimizeConfig::new(
        candidate(&[("instructions", "baseline rubric")]),
        LMConfig::default(),
    );
    c.stop_condition.max_metric_calls = None;
    c.stop_condition.max_iterations = Some(1);
    c.candidate_selector = CandidateSelectorKind::CurrentBest;
    c.minibatch_size = 2;
    c.use_merge = false;
    c.skip_perfect_score = false;
    c.perfect_score = None;
    c.cache_evaluation = true;
    c.rng_seed = Some(7);
    c.str_candidate_key = Some("instructions".into());
    let parts: Assembly<usize, Floats> = assemble(c, Floats).ok().unwrap();
    let mut world = World::flat(score);
    world.reply = Some("```\nimproved rubric\n```");
    let ids = vec![0usize, 1, 2];
    let list: Vec<f64> =
        world.scores_of(&parts.seed_candidate, &ids).iter().map(|x| f(*x)).collect();
    let outcome = outcome_of(&ids, &batch(&["a", "b", "c"], &list)).unwrap();
    let mut state = seed_state(&parts.seed_candidate, &ids, outcome, &parts.settings).unwrap();
    open_run(&mut state, &parts.settings, 3).unwrap();
    let mut run = Run::new(state, vec![0, 1, 2], ids, parts.mutation, parts.merge, Floats);
    assert_eq!(iterate(&mut run, &mut world, &parts.stop).unwrap(), Came::To(1));
    assert_eq!(iterate(&mut run, &mut world, &parts.stop).unwrap(), Came::Stopped);
    let (_, result) = run
        .finish(&FullEvalPolicy, parts.run_dir, parts.rng_seed, parts.str_candidate_key)
        .unwrap();
    assert_eq!(result.num_candidates(), 2);
    assert_eq!(result.best_idx().expect("best candidate exists"), 1);
    assert_eq!(result.best_candidate_str(), Some("improved rubric".to_string()));
    assert_eq!(result.total_metric_calls, Some(10));
    assert_eq!(result.num_full_val_evals, Some(2));
    assert_eq!(world.evaluated, 10);
}
