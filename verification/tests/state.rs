#![allow(dead_code)]
use std::collections::HashSet;

use gepa::optimizer::frontier::FrontierKey;
use gepa::optimizer::state::BEFORE_FIRST_ITERATION;
use gepa::{
    candidate_hash, Candidate, EvaluationCache, FrontierType, GEPAError, GEPAResult, GEPAState,
    KeyMap, ObjectiveScores, Score, ScoreArithmetic, ValsetEvaluation,
};
use rand::rngs::mock::StepRng;
use rand::Rng;
use serde_json::Value;

#[derive(Clone, Copy)]
struct Floats;

fn s(x: f64) -> Score {
    Score::from_bits(x.to_bits())
}

fn f(x: Score) -> f64 {
    f64::from_bits(x.bits)
}

impl ScoreArithmetic for Floats {
    fn sum(&self, scores: &Vec<Score>) -> Score {
        s(scores.iter().map(|x| f(*x)).sum())
    }

    fn mean(&self, scores: &Vec<Score>) -> Score {
        s(scores.iter().map(|x| f(*x)).sum::<f64>() / scores.len() as f64)
    }

    fn plus(&self, a: Score, b: Score) -> Score {
        s(f(a) + f(b))
    }

    fn point(&self, word: u64, limit: Score) -> Score {
        s(StepRng::new(word, 0).gen::<f64>() * f(limit))
    }

    fn text(&self, x: Score) -> String {
        format!("{}", f(x))
    }

    fn parse(&self, token: &String) -> Option<Score> {
        token.parse::<f64>().ok().map(s)
    }
}

fn scores(list: &[f64]) -> Vec<Score> {
    list.iter().map(|x| s(*x)).collect()
}

fn text(t: &str) -> Value {
    Value::from(t)
}

fn evaluation(
    ids: &[usize],
    outputs: Vec<Value>,
    list: &[f64],
    objectives: Option<Vec<ObjectiveScores>>,
) -> ValsetEvaluation<usize> {
    ValsetEvaluation::from_vecs(ids.to_vec(), outputs, scores(list), objectives, &Floats)
}

fn make_seed_evaluation(ids: &[usize], list: &[f64]) -> ValsetEvaluation<usize> {
    let outputs = ids.iter().map(|i| Value::from(*i)).collect::<Vec<_>>();
    evaluation(ids, outputs, list, None)
}

fn make_seed_candidate() -> Candidate {
    let mut c = Candidate::new();
    c.insert("instructions".into(), "Do the task.".into());
    c
}

fn objective(name: &str, value: f64) -> ObjectiveScores {
    let mut m = KeyMap::new();
    m.insert(name.to_string(), s(value));
    m
}

fn make_seed_evaluation_with_objectives(
    ids: &[usize],
    list: &[f64],
    objectives: Vec<ObjectiveScores>,
) -> ValsetEvaluation<usize> {
    let outputs = ids.iter().map(|i| Value::from(*i)).collect::<Vec<_>>();
    evaluation(ids, outputs, list, Some(objectives))
}

fn new_state(eval: ValsetEvaluation<usize>, kind: FrontierType) -> GEPAState<usize> {
    GEPAState::new(make_seed_candidate(), eval, kind, None).expect("construction should succeed")
}

fn named(t: &str) -> Candidate {
    let mut c = make_seed_candidate();
    c.insert("instructions".into(), t.into());
    c
}

#[test]
fn initial_state_is_consistent() {
    let eval = make_seed_evaluation(&[0, 1, 2], &[0.5, 0.6, 0.7]);
    let state = new_state(eval, FrontierType::Instance);
    state.is_consistent().expect("state should be consistent");
    assert_eq!(state.program_candidates.len(), 1);
    assert_eq!(state.i, BEFORE_FIRST_ITERATION);
}

#[test]
fn update_state_with_new_program_grows_all_collections() {
    let eval = make_seed_evaluation(&[0, 1, 2], &[0.4, 0.5, 0.6]);
    let mut state = new_state(eval, FrontierType::Instance);
    let new_eval = evaluation(
        &[0, 1, 2],
        vec![text("out0"), text("out1"), text("out2")],
        &[0.8, 0.9, 1.0],
        None,
    );
    let new_idx = state
        .update_state_with_new_program(vec![0], make_seed_candidate(), new_eval, 3)
        .expect("update should succeed");
    assert_eq!(new_idx, 1);
    assert_eq!(state.program_candidates.len(), 2);
    state.is_consistent().expect("state should still be consistent");
    let means = state.program_full_scores_val_set();
    assert!(f(means[1]) > f(means[0]));
    assert_eq!(f(means[0]), (0.4 + 0.5 + 0.6) / 3.0);
    assert_eq!(state.num_metric_calls_by_discovery, vec![0, 3]);
    assert_eq!(state.parent_program_for_candidate, vec![vec![None], vec![Some(0)]]);
}

#[test]
fn candidate_hash_is_order_invariant() {
    let mut a = Candidate::new();
    a.insert("z".into(), "last".into());
    a.insert("a".into(), "first".into());
    let mut b = Candidate::new();
    b.insert("a".into(), "first".into());
    b.insert("z".into(), "last".into());
    assert_eq!(candidate_hash(&a), candidate_hash(&b));
    let mut c = Candidate::new();
    c.insert("a".into(), "last".into());
    c.insert("z".into(), "first".into());
    assert_ne!(candidate_hash(&a), candidate_hash(&c));
}

#[test]
fn candidate_hash_is_sha256_of_sorted_json_pairs() {
    // The digest of the JSON text `[]`.
    assert_eq!(
        candidate_hash(&Candidate::new()),
        "4f53cda18c2baa0c0354bb5f9a3ecbe5ed12ab4d8e11ba873c2f11161202b945"
    );
}

#[test]
fn evaluation_cache_round_trip() {
    let mut cache = EvaluationCache::new();
    let mut candidate = Candidate::new();
    candidate.insert("instructions".into(), "test".into());
    let id: usize = 42;
    assert!(cache.is_empty());
    cache.put(&candidate, &id, text("output"), s(0.75), None);
    let entry = cache.get(&candidate, &id).expect("should find cached entry");
    assert!((f(entry.score) - 0.75).abs() < f64::EPSILON);
    assert_eq!(entry.output, text("output"));
    assert_eq!(cache.len(), 1);
    assert!(cache.get(&candidate, &43usize).is_none());
    assert!(cache.get(&named("other"), &id).is_none());
}

#[test]
fn cache_keys_by_text_identifiers() {
    let mut cache = EvaluationCache::new();
    let candidate = make_seed_candidate();
    cache.put(&candidate, &"a\"b".to_string(), text("x"), s(1.0), None);
    assert!(cache.get(&candidate, &"a\"b".to_string()).is_some());
    assert!(cache.get(&candidate, &"ab".to_string()).is_none());
    let entries = cache.to_entries();
    assert!(entries[0].0.ends_with(":\"a\\\"b\""));
}

#[test]
fn get_pareto_front_mapping_returns_correct_keys() {
    let eval = make_seed_evaluation(&[0, 1], &[0.5, 0.8]);
    let state = new_state(eval, FrontierType::Instance);
    let mapping = state.get_pareto_front_mapping();
    assert_eq!(mapping.len(), 2, "should have one key per val_id");
    for i in 0..mapping.len() {
        assert!(
            matches!(mapping.key_at(i), FrontierKey::Instance { .. }),
            "expected Instance keys for FrontierType::Instance"
        );
        assert!(!mapping.value_at(i).is_empty(), "front should not be empty");
    }
}

#[test]
fn frontier_type_config_error_when_missing_objectives() {
    let eval = make_seed_evaluation(&[0], &[0.5]);
    let result = GEPAState::new(make_seed_candidate(), eval, FrontierType::Objective, None);
    assert!(
        result.is_err(),
        "should fail when objectives are missing for non-instance frontier"
    );
    assert_eq!(
        result.err().map(|e| e.to_string()),
        Some(
            "Configuration error: frontier_type=Objective requires objective_scores to be provided by the evaluator, but none were found. Use an evaluator that returns objective_scores or use FrontierType::Instance.".to_string()
        )
    );
}

#[test]
fn test_update_with_objective_frontier() {
    let seed_objs = vec![objective("accuracy", 0.5), objective("accuracy", 0.6)];
    let eval = make_seed_evaluation_with_objectives(&[0, 1], &[0.5, 0.6], seed_objs);
    let mut state = new_state(eval, FrontierType::Objective);
    assert!(
        state.program_at_pareto_front_objectives.contains_key(&"accuracy".to_string()),
        "accuracy objective should be in the front"
    );
    let new_objs = vec![objective("accuracy", 0.9), objective("accuracy", 0.9)];
    let new_eval = make_seed_evaluation_with_objectives(&[0, 1], &[0.9, 0.9], new_objs);
    let new_idx = state
        .update_state_with_new_program(vec![0], named("better"), new_eval, 2)
        .expect("update should succeed");
    let acc_front = state
        .program_at_pareto_front_objectives
        .get(&"accuracy".to_string())
        .expect("accuracy key should exist");
    assert!(
        acc_front.contains(&new_idx),
        "new candidate should be on the accuracy front after improving the score"
    );
    assert!(!acc_front.contains(&0), "seed should no longer be on the accuracy front");
}

#[test]
fn test_update_with_cartesian_frontier() {
    let seed_objs = vec![objective("f1", 0.4), objective("f1", 0.5)];
    let eval = make_seed_evaluation_with_objectives(&[0, 1], &[0.4, 0.5], seed_objs);
    let mut state = new_state(eval, FrontierType::Cartesian);
    assert!(!state.pareto_front_cartesian.is_empty(), "cartesian front should be seeded");
    let new_objs = vec![objective("f1", 0.8), objective("f1", 0.9)];
    let new_eval = make_seed_evaluation_with_objectives(&[0, 1], &[0.8, 0.9], new_objs);
    let new_idx = state
        .update_state_with_new_program(vec![0], named("cartesian_better"), new_eval, 2)
        .expect("update should succeed");
    let key = (0usize, "f1".to_string());
    let front = state
        .program_at_pareto_front_cartesian
        .get(&key)
        .expect("(0, f1) key should exist in cartesian front");
    assert!(front.contains(&new_idx), "new candidate should dominate (0, f1)");
    let mapping = state.get_pareto_front_mapping();
    assert_eq!(mapping.len(), 2);
    assert!(matches!(mapping.key_at(0), FrontierKey::Cartesian { .. }));
}

#[test]
fn test_update_with_hybrid_frontier() {
    let seed_objs = vec![objective("bleu", 0.3), objective("bleu", 0.4)];
    let eval = make_seed_evaluation_with_objectives(&[10, 20], &[0.3, 0.4], seed_objs);
    let mut state = new_state(eval, FrontierType::Hybrid);
    let new_objs = vec![objective("bleu", 0.7), objective("bleu", 0.8)];
    let new_eval = make_seed_evaluation_with_objectives(&[10, 20], &[0.7, 0.8], new_objs);
    state
        .update_state_with_new_program(vec![0], named("hybrid_better"), new_eval, 2)
        .expect("update should succeed");
    let mapping = state.get_pareto_front_mapping();
    let keys: Vec<&FrontierKey<usize>> = (0..mapping.len()).map(|i| mapping.key_at(i)).collect();
    let has_instance = keys.iter().any(|k| matches!(k, FrontierKey::Instance { .. }));
    let has_objective = keys.iter().any(|k| matches!(k, FrontierKey::Objective { .. }));
    assert!(has_instance, "Hybrid mapping should contain Instance keys");
    assert!(has_objective, "Hybrid mapping should contain Objective keys");
    assert_eq!(mapping.len(), 3);
}

#[test]
fn objective_update_without_objectives_errors() {
    let eval = make_seed_evaluation_with_objectives(&[0], &[0.5], vec![objective("bleu", 0.3)]);
    for kind in [FrontierType::Objective, FrontierType::Hybrid] {
        let eval = make_seed_evaluation_with_objectives(&[0], &[0.5], vec![objective("b", 0.3)]);
        let mut state = new_state(eval, kind);
        let bad = evaluation(&[0], vec![text("o")], &[0.9], None);
        let e = state
            .update_state_with_new_program(vec![0], named("x"), bad, 1)
            .err()
            .expect("objective scores are needed");
        assert_eq!(
            e.to_string(),
            format!(
                "Configuration error: frontier_type={:?} requires objective_scores in valset_evaluation",
                kind
            )
        );
    }
    let mut state = new_state(eval, FrontierType::Instance);
    let plain = evaluation(&[0], vec![text("o")], &[0.9], None);
    assert!(state.update_state_with_new_program(vec![0], named("x"), plain, 1).is_ok());
}

#[test]
fn test_pareto_tie_adds_to_set() {
    let eval = make_seed_evaluation(&[0, 1], &[0.7, 0.5]);
    let mut state = new_state(eval, FrontierType::Instance);
    let new_eval = evaluation(&[0, 1], vec![text("a"), text("b")], &[0.7, 0.5], None);
    state
        .update_state_with_new_program(vec![0], named("tied candidate"), new_eval, 2)
        .expect("update should succeed");
    let front = state
        .program_at_pareto_front_valset
        .get(&0usize)
        .expect("val_id=0 should have a front entry");
    assert!(front.contains(&0), "seed (idx 0) should remain in front on tie");
    assert!(front.contains(&1), "new candidate (idx 1) should also be in front on tie");
}

#[test]
fn test_cartesian_missing_objectives_errors() {
    let eval =
        make_seed_evaluation_with_objectives(&[0], &[0.5], vec![objective("rouge", 0.5)]);
    let mut state = new_state(eval, FrontierType::Cartesian);
    let bad_eval = evaluation(&[0], vec![text("out")], &[0.9], None);
    let result =
        state.update_state_with_new_program(vec![0], named("no-obj candidate"), bad_eval, 1);
    assert!(
        result.is_err(),
        "Cartesian frontier update without objective scores should return Err"
    );
}

#[test]
fn test_state_json_round_trip() {
    let eval = make_seed_evaluation(&[0, 1, 2], &[0.3, 0.5, 0.7]);
    let mut state = new_state(eval, FrontierType::Instance);
    for (i, list) in [vec![0.4, 0.6, 0.8], vec![0.5, 0.7, 0.9]].iter().enumerate() {
        let new_eval =
            evaluation(&[0, 1, 2], vec![text("x"), text("y"), text("z")], list, None);
        state
            .update_state_with_new_program(
                vec![0],
                named(&format!("candidate {i}")),
                new_eval,
                i + 2,
            )
            .expect("update should succeed");
    }
    assert_eq!(state.program_candidates.len(), 3);
    let restored = GEPAState::restore(state.record(), &Floats);
    restored.is_consistent().expect("restored state should be consistent");
    assert_eq!(restored.program_candidates.len(), state.program_candidates.len());
    let original_scores = state.program_full_scores_val_set();
    let restored_scores = restored.program_full_scores_val_set();
    assert_eq!(restored_scores.len(), original_scores.len());
    for (orig, rest) in original_scores.iter().zip(restored_scores.iter()) {
        assert!((f(*orig) - f(*rest)).abs() < 1e-10);
    }
    assert_eq!(restored.pareto_front_valset.len(), state.pareto_front_valset.len());
    assert_eq!(restored.num_metric_calls_by_discovery, state.num_metric_calls_by_discovery);
    assert_eq!(restored.program_candidates[2].get("instructions").unwrap(), "candidate 1");
    assert_eq!(
        restored.program_at_pareto_front_valset.get(&1).unwrap(),
        &HashSet::from([2usize])
    );
}

#[test]
fn record_gives_back_the_cache() {
    let mut cache = EvaluationCache::new();
    cache.put(&make_seed_candidate(), &0usize, text("o"), s(0.5), Some(objective("a", 0.25)));
    let eval = make_seed_evaluation(&[0], &[0.5]);
    let state =
        GEPAState::new(make_seed_candidate(), eval, FrontierType::Instance, Some(cache)).unwrap();
    let restored = GEPAState::restore(state.record(), &Floats);
    let cache = restored.evaluation_cache.expect("the cache comes back");
    let entry = cache.get(&make_seed_candidate(), &0usize).expect("the entry comes back");
    assert_eq!(entry.score, s(0.5));
    assert_eq!(
        entry.objective_scores.as_ref().unwrap().get(&"a".to_string()),
        Some(&s(0.25))
    );
    assert_eq!(restored.i, BEFORE_FIRST_ITERATION);
}

#[test]
fn test_state_from_json_rejects_future_schema() {
    let future_version = GEPAState::<usize>::SCHEMA_VERSION + 1;
    let json = format!(
        r#"{{
            "validation_schema_version": {future_version},
            "program_candidates": [],
            "parent_program_for_candidate": [],
            "prog_candidate_val_subscores": [],
            "prog_candidate_objective_scores": [],
            "num_metric_calls_by_discovery": [],
            "pareto_front_valset": [],
            "program_at_pareto_front_valset": [],
            "objective_pareto_front": {{}},
            "program_at_pareto_front_objectives": {{}},
            "list_of_named_predictors": [],
            "named_predictor_id_to_update_next": [],
            "frontier_type": "instance",
            "i": 0,
            "num_full_ds_evals": 0,
            "total_num_evals": 0
        }}"#
    );
    let result = GEPAState::<usize>::saved_version(&json);
    assert!(result.is_err(), "a future schema version should be rejected");
    assert_eq!(
        result.err().unwrap().to_string(),
        "Configuration error: Unsupported GEPAState schema version 5; maximum supported is 4"
    );
    assert_eq!(
        GEPAState::<usize>::saved_version("{\"validation_schema_version\": 4}").unwrap(),
        4
    );
    assert_eq!(GEPAState::<usize>::saved_version("{}").unwrap(), 0);
    assert!(matches!(
        GEPAState::<usize>::saved_version("{nothing"),
        Err(GEPAError::Serde(_))
    ));
}

#[test]
fn test_round_robin_counter_inherits_max_parent() {
    let eval = make_seed_evaluation(&[0, 1], &[0.5, 0.6]);
    let mut state = new_state(eval, FrontierType::Instance);
    let eval1 = evaluation(&[0, 1], vec![text("a"), text("b")], &[0.6, 0.7], None);
    state
        .update_state_with_new_program(vec![0], named("child1"), eval1, 2)
        .expect("update should succeed");
    state.named_predictor_id_to_update_next[1] = 5;
    let eval2 = evaluation(&[0, 1], vec![text("c"), text("d")], &[0.7, 0.8], None);
    state
        .update_state_with_new_program(vec![1], named("child2"), eval2, 3)
        .expect("update should succeed");
    assert_eq!(
        state.named_predictor_id_to_update_next[2], 5,
        "child should inherit the max parent round-robin counter"
    );
}

#[test]
fn test_is_consistent_detects_length_mismatch() {
    let eval = make_seed_evaluation(&[0, 1], &[0.5, 0.6]);
    let mut state = new_state(eval, FrontierType::Instance);
    state.parent_program_for_candidate.push(vec![Some(0)]);
    let result = state.is_consistent();
    assert!(result.is_err(), "is_consistent should detect the length mismatch");
    assert_eq!(
        result.err().unwrap().to_string(),
        "Configuration error: GEPAState invariant: parent_program_for_candidate has len 2 but program_candidates has len 1"
    );
}

#[test]
fn is_consistent_detects_front_faults() {
    let mut state = new_state(make_seed_evaluation(&[0, 1], &[0.5, 0.6]), FrontierType::Instance);
    state.program_at_pareto_front_valset.insert(1, HashSet::from([7]));
    assert_eq!(
        state.is_consistent().err().unwrap().to_string(),
        "Configuration error: Program index 7 in valset Pareto front exceeds number of program candidates (1)"
    );
    let mut state = new_state(make_seed_evaluation(&[0, 1], &[0.5, 0.6]), FrontierType::Instance);
    state.program_at_pareto_front_valset.insert(9, HashSet::from([0]));
    assert!(state.is_consistent().is_err());
    state.pareto_front_valset.insert(8, s(0.5));
    assert_eq!(
        state.is_consistent().err().unwrap().to_string(),
        "Configuration error: val_id 9 in program_at_pareto_front_valset but not in pareto_front_valset"
    );
}

#[test]
fn test_evaluation_cache_get_batch() {
    let mut cache = EvaluationCache::new();
    let candidate = named("cache_test");
    for id in 0usize..3 {
        cache.put(&candidate, &id, Value::from(id), s(id as f64 * 0.1), None);
    }
    let query_ids: Vec<usize> = vec![0, 1, 2, 3, 4];
    let (cached_results, uncached_ids) = cache.get_batch(&candidate, &query_ids);
    assert_eq!(cached_results.len(), 3, "should find 3 cached entries");
    assert_eq!(uncached_ids.len(), 2, "should report 2 uncached entries");
    assert!(uncached_ids.contains(&3));
    assert!(uncached_ids.contains(&4));
    assert!((f(cached_results.get(&0).unwrap().score) - 0.0).abs() < f64::EPSILON);
    assert!((f(cached_results.get(&1).unwrap().score) - 0.1).abs() < f64::EPSILON);
    assert!((f(cached_results.get(&2).unwrap().score) - 0.2).abs() < f64::EPSILON);
}

#[test]
fn test_state_at_scale_100_candidates() {
    let val_ids: Vec<usize> = (0..5).collect();
    let seed_scores: Vec<f64> = val_ids.iter().map(|i| *i as f64 * 0.1).collect();
    let mut state =
        new_state(make_seed_evaluation(&val_ids, &seed_scores), FrontierType::Instance);
    for n in 1usize..100 {
        let list: Vec<f64> = val_ids.iter().map(|i| ((n * 7 + i) % 11) as f64 / 10.0).collect();
        let outputs: Vec<Value> = list.iter().map(|x| Value::from(*x)).collect();
        let new_eval = evaluation(&val_ids, outputs, &list, None);
        state
            .update_state_with_new_program(vec![0], named(&format!("candidate {n}")), new_eval, n)
            .expect("update should succeed");
    }
    assert_eq!(state.program_candidates.len(), 100);
    state.is_consistent().expect("state should be consistent at scale");
    assert_eq!(state.program_full_scores_val_set().len(), 100);
    let mapping = state.get_pareto_front_mapping();
    assert_eq!(mapping.len(), val_ids.len());
    for i in 0..mapping.len() {
        assert!(!mapping.value_at(i).is_empty());
    }
}

#[test]
fn best_outputs_follow_the_best_score() {
    let eval = evaluation(&[0, 1], vec![text("s0"), text("s1")], &[0.5, 0.9], None);
    let mut state = GEPAState::new_with_options(
        make_seed_candidate(),
        eval,
        FrontierType::Instance,
        None,
        true,
    )
    .unwrap();
    let better = evaluation(&[0, 1], vec![text("n0"), text("n1")], &[0.6, 0.9], None);
    state.update_state_with_new_program(vec![0], named("new"), better, 2).unwrap();
    let best = state.best_outputs_valset.as_ref().unwrap();
    assert_eq!(best.get(&0), Some(&(1, text("n0"))), "a better score brings its output");
    assert_eq!(best.get(&1), Some(&(0, text("s1"))), "an equal score does not");
}

#[test]
fn fronts_never_fall_and_name_the_best() {
    let mut state = new_state(make_seed_evaluation(&[0, 1], &[0.5, 0.9]), FrontierType::Instance);
    let next = evaluation(&[0, 1], vec![text("a"), text("b")], &[0.8, 0.1], None);
    state.update_state_with_new_program(vec![0], named("new"), next, 2).unwrap();
    assert_eq!(f(*state.pareto_front_valset.get(&0).unwrap()), 0.8);
    assert_eq!(f(*state.pareto_front_valset.get(&1).unwrap()), 0.9);
    assert_eq!(state.program_at_pareto_front_valset.get(&0), Some(&HashSet::from([1])));
    assert_eq!(state.program_at_pareto_front_valset.get(&1), Some(&HashSet::from([0])));
}

#[test]
fn objective_means_are_over_the_examples_that_have_them() {
    let mut first = objective("a", 0.2);
    first.insert("b".to_string(), s(1.0));
    let rows = vec![first, objective("a", 0.6)];
    let eval = make_seed_evaluation_with_objectives(&[0, 1], &[0.1, 0.3], rows);
    assert_eq!(f(*eval.mean_objectives.get(&"a".to_string()).unwrap()), 0.4);
    assert_eq!(f(*eval.mean_objectives.get(&"b".to_string()).unwrap()), 1.0);
    assert_eq!(f(eval.mean_score), 0.2);
    let none = GEPAState::<usize>::aggregate_objective_scores(None, &Floats);
    assert!(none.is_empty());
    let empty = evaluation(&[], vec![], &[], None);
    assert_eq!(f(empty.mean_score), f64::NEG_INFINITY);
}

#[test]
fn second_cached_evaluation_evaluates_nothing() {
    let eval = make_seed_evaluation(&[0], &[0.5]);
    let mut state = GEPAState::new(
        make_seed_candidate(),
        eval,
        FrontierType::Instance,
        Some(EvaluationCache::new()),
    )
    .unwrap();
    let c = named("cached");
    let run = |ids: &[usize], _c: &Candidate| {
        let mut outputs = KeyMap::new();
        let mut list = KeyMap::new();
        for id in ids {
            outputs.insert(*id, Value::from(*id));
            list.insert(*id, s(*id as f64));
        }
        Ok((outputs, list, None))
    };
    let (first, n) = state.cached_evaluate_valset(&c, &[1, 2], run, &Floats).unwrap();
    assert_eq!(n, 2);
    assert_eq!(f(first.mean_score), 1.5);
    let (again, n) = state
        .cached_evaluate_valset(
            &c,
            &[1, 2],
            |_: &[usize], _: &Candidate| panic!("nothing is to be evaluated"),
            &Floats,
        )
        .unwrap();
    assert_eq!(n, 0);
    assert_eq!(again.scores_by_val_id.get(&2), Some(&s(2.0)));
    let (more, n) = state.cached_evaluate_valset(&c, &[1, 3], run, &Floats).unwrap();
    assert_eq!(n, 1);
    assert_eq!(more.scores_by_val_id.len(), 2);
    let failed = state.cached_evaluate_valset(
        &c,
        &[9],
        |_: &[usize], _: &Candidate| Err(GEPAError::Evaluation("down".into())),
        &Floats,
    );
    assert!(matches!(failed, Err(GEPAError::Evaluation(_))));
}

// Results.

fn make_state() -> GEPAState<usize> {
    let mut seed = Candidate::new();
    seed.insert("instructions".into(), "test".into());
    let outputs = (0..3).map(|i| Value::from(i)).collect::<Vec<_>>();
    let eval = evaluation(&[0, 1, 2], outputs, &[0.3, 0.6, 0.9], None);
    GEPAState::new(seed, eval, FrontierType::Instance, None).unwrap()
}

fn add(state: &mut GEPAState<usize>, t: &str, list: &[f64]) {
    let mut c = Candidate::new();
    c.insert("instructions".into(), t.into());
    let eval = evaluation(&[0, 1, 2], vec![text("a"), text("b"), text("c")], list, None);
    state.update_state_with_new_program(vec![0], c, eval, 3).unwrap();
}

#[test]
fn from_state_produces_valid_result() {
    let state = make_state();
    let result = GEPAResult::from_state(&state, None, None, None);
    assert_eq!(result.num_candidates(), 1);
    assert_eq!(result.num_val_instances(), 3);
    assert!(result.best_idx().is_ok());
    assert_eq!(result.total_metric_calls, Some(0));
    assert!(result.val_aggregate_subscores.is_none());
    assert!(result.objective_pareto_front.is_none());
    assert_eq!(result.validation_schema_version, 2);
}

#[test]
fn best_idx_with_multiple_candidates() {
    let mut state = make_state();
    add(&mut state, "improved", &[0.95, 0.95, 0.95]);
    let result = GEPAResult::from_state(&state, None, Some(42), None);
    assert_eq!(result.best_idx().unwrap(), 1, "improved candidate should be best");
    assert_eq!(result.seed, Some(42));
    assert_eq!(
        result.best_candidate().unwrap().get("instructions").map(String::as_str),
        Some("improved")
    );
}

#[test]
fn from_json_rejects_future_schema_version() {
    let json = r#"{
        "validation_schema_version": 9999,
        "candidates": [],
        "parents": [],
        "val_aggregate_scores": [],
        "val_subscores": [],
        "per_val_instance_best_candidates": {},
        "discovery_eval_counts": []
    }"#;
    let result = GEPAResult::<usize>::saved_version(json);
    assert!(result.is_err(), "should reject future schema version");
    assert_eq!(
        GEPAResult::<usize>::saved_version("{\"validation_schema_version\": 99999999999}")
            .err()
            .unwrap()
            .to_string(),
        "Configuration error: Unsupported GEPAResult schema version 4294967295; maximum supported is 2"
    );
}

#[test]
fn test_best_idx_tie_prefers_smaller_index() {
    let mut state = make_state();
    add(&mut state, "tied", &[0.3, 0.6, 0.9]);
    let result = GEPAResult::from_state(&state, None, None, None);
    assert_eq!(result.num_candidates(), 2);
    assert_eq!(
        result.best_idx().expect("should have candidates"),
        0,
        "smaller index should win on tie"
    );
}

#[test]
fn test_best_candidate_str_returns_value() {
    let state = make_state();
    let result = GEPAResult::from_state(&state, None, None, Some("instructions".into()));
    let t = result.best_candidate_str();
    assert!(t.is_some(), "best_candidate_str should return Some when key is present");
    assert_eq!(t.unwrap(), "test");
}

#[test]
fn test_best_candidate_str_missing_key_returns_none() {
    let state = make_state();
    let result = GEPAResult::from_state(&state, None, None, Some("nonexistent_key".into()));
    assert!(
        result.best_candidate_str().is_none(),
        "best_candidate_str should return None when the key is absent from the candidate"
    );
}

#[test]
fn result_of_nothing_has_no_best() {
    let mut result = GEPAResult::from_state(&make_state(), None, None, None);
    result.val_aggregate_scores.clear();
    assert!(matches!(result.best_idx(), Err(GEPAError::NoCandidates)));
    assert!(matches!(result.best_candidate(), Err(GEPAError::NoCandidates)));
}

#[test]
fn json_round_trip() {
    let state = make_state();
    let result = GEPAResult::from_state(&state, Some("/tmp/run".into()), None, None);
    let restored: GEPAResult<usize> = GEPAResult::restore(result.record());
    assert_eq!(restored.num_candidates(), result.num_candidates());
    assert_eq!(restored.val_aggregate_scores, result.val_aggregate_scores);
    assert_eq!(restored.run_dir, Some("/tmp/run".into()));
    assert_eq!(restored.num_val_instances(), 3);
    assert_eq!(restored.val_subscores[0].get(&1), Some(&s(0.6)));
    assert_eq!(
        restored.per_val_instance_best_candidates.get(&2),
        Some(&HashSet::from([0usize]))
    );
    assert!(restored.best_outputs_valset.is_none());
}

#[test]
fn results_have_the_best_outputs() {
    let seed = make_seed_candidate();
    let mut state = GEPAState::new_with_options(
        seed,
        make_seed_evaluation(&[0, 1], &[0.3, 0.9]),
        FrontierType::Instance,
        None,
        true,
    )
    .unwrap();
    add_with_outputs(&mut state);
    let result = GEPAResult::from_state(&state, None, None, None);
    let best = GEPAResult::restore(result.record()).best_outputs_valset.unwrap();
    assert_eq!(best.get(&0), Some(&(1usize, text("better"))));
    assert_eq!(best.get(&1).map(|b| b.0), Some(0));
}

fn add_with_outputs(state: &mut GEPAState<usize>) {
    let eval = ValsetEvaluation::from_vecs(
        vec![0, 1],
        vec![text("better"), text("worse")],
        scores(&[0.5, 0.1]),
        None,
        &Floats,
    );
    state.update_state_with_new_program(vec![0], named("new"), eval, 2).unwrap();
}

#[test]
fn versions_that_are_no_numbers_count_as_none() {
    let version = |text: &str| GEPAState::<usize>::saved_version(text).unwrap();
    assert_eq!(version("{\"validation_schema_version\": \"9\"}"), 0);
    assert_eq!(version("{\"validation_schema_version\": -9}"), 0);
    assert_eq!(version("[9]"), 0);
}

#[test]
fn a_clone_has_the_same_contents() {
    let mut state = make_state();
    add(&mut state, "improved", &[0.95, 0.95, 0.95]);
    let copy = state.clone();
    assert_eq!(copy.program_candidates, state.program_candidates);
    assert_eq!(copy.pareto_front_valset.get(&1), state.pareto_front_valset.get(&1));
    assert_eq!(copy.program_full_scores_val_set(), state.program_full_scores_val_set());
    assert_eq!(format!("{:?}", EvaluationCache::default()), format!("{:?}", EvaluationCache::new()));
}
