#![allow(dead_code)]
use std::collections::HashSet;

use gepa::strategies::batch_sampler::{arrange, BatchSampler, EpochShuffledSampler};
use gepa::strategies::candidate_selector::{
    CandidateSelector, CurrentBestSelector, EpsilonGreedySelector, ParetoCandidateSelector,
    TopKParetoCandidateSelector,
};
use gepa::strategies::component_selector::{
    AllComponentSelector, ComponentSelector, RoundRobinSelector,
};
use gepa::strategies::eval_policy::{EvalPolicy, FullEvalPolicy};
use gepa::{
    Candidate, FrontierType, GEPAError, GEPAState, ReflectiveMutationProposer, Score,
    ScoreArithmetic, ValsetEvaluation,
};
use rand::rngs::mock::StepRng;
use rand::rngs::StdRng;
use rand::seq::SliceRandom;
use rand::{Rng, SeedableRng};
use serde_json::Value;

#[derive(Clone, Copy)]
struct Floats;

fn s(x: f64) -> Score {
    Score::from_bits(x.to_bits())
}

fn f(x: Score) -> f64 {
    f64::from_bits(x.bits)
}

impl ScoreArithmetic for Floats {
    fn sum(&self, scores: &Vec<Score>) -> Score {
        s(scores.iter().map(|x| f(*x)).sum())
    }

    fn mean(&self, scores: &Vec<Score>) -> Score {
        s(scores.iter().map(|x| f(*x)).sum::<f64>() / scores.len() as f64)
    }

    fn plus(&self, a: Score, b: Score) -> Score {
        s(f(a) + f(b))
    }

    fn point(&self, word: u64, limit: Score) -> Score {
        s(StepRng::new(word, 0).gen::<f64>() * f(limit))
    }

    fn text(&self, x: Score) -> String {
        format!("{}", f(x))
    }

    fn parse(&self, token: &String) -> Option<Score> {
        token.parse::<f64>().ok().map(s)
    }
}

fn evaluation(ids: &[usize], list: &[f64]) -> ValsetEvaluation<usize> {
    ValsetEvaluation::from_vecs(
        ids.to_vec(),
        ids.iter().map(|i| Value::from(*i)).collect(),
        list.iter().map(|x| s(*x)).collect(),
        None,
        &Floats,
    )
}

fn candidate(t: &str) -> Candidate {
    let mut c = Candidate::new();
    c.insert("instructions".into(), t.into());
    c
}

fn make_state_at(i: usize) -> GEPAState<usize> {
    let mut state =
        GEPAState::new(candidate("test"), evaluation(&[0], &[0.5]), FrontierType::Instance, None)
            .expect("should construct");
    state.i = i;
    state
}

#[test]
fn sampler_returns_correct_batch_size() {
    let state = make_state_at(0);
    let all_ids: Vec<usize> = (0..10).collect();
    let mut sampler = EpochShuffledSampler::new(3, 42).expect("construction ok");
    let batch = sampler.next_batch_ids(&all_ids, &state).expect("should sample");
    assert_eq!(batch.len(), 3);
}

#[test]
fn sampler_empty_dataset_errors() {
    let state = make_state_at(0);
    let mut sampler = EpochShuffledSampler::new(3, 0).expect("construction ok");
    let result = sampler.next_batch_ids(&[], &state);
    assert!(result.is_err());
    assert!(matches!(result, Err(GEPAError::EmptyDataset(_))));
}

#[test]
fn sampler_covers_all_ids_over_one_epoch() {
    let all_ids: Vec<usize> = (0..6).collect();
    let mut sampler = EpochShuffledSampler::new(2, 99).expect("construction ok");
    let mut seen: HashSet<usize> = HashSet::new();
    for iter in 0..3 {
        let state = make_state_at(iter);
        let batch = sampler.next_batch_ids(&all_ids, &state).expect("should sample");
        seen.extend(batch);
    }
    assert_eq!(seen.len(), 6);
}

#[test]
fn sampler_non_divisible_size_still_returns_full_batch() {
    let all_ids: Vec<usize> = (0..5).collect();
    let mut sampler = EpochShuffledSampler::new(3, 7).expect("construction ok");
    let state = make_state_at(0);
    let batch = sampler.next_batch_ids(&all_ids, &state).expect("should sample");
    assert_eq!(batch.len(), 3);
    assert_eq!(sampler.shuffled_ids.len(), 6);
}

#[test]
fn padding_takes_the_least_seen() {
    let all_ids: Vec<usize> = vec![7, 7, 7, 1];
    let mut sampler = EpochShuffledSampler::new(3, 7).expect("construction ok");
    sampler.next_batch_ids(&all_ids, &make_state_at(0)).expect("should sample");
    assert_eq!(sampler.shuffled_ids.iter().filter(|id| **id == 1).count(), 3);
}

#[test]
fn a_shuffle_moves_something() {
    let all_ids: Vec<usize> = (0..50).collect();
    let mut sampler = EpochShuffledSampler::new(5, 1).expect("construction ok");
    sampler.next_batch_ids(&all_ids, &make_state_at(0)).expect("should sample");
    assert_ne!(sampler.shuffled_ids, all_ids);
    let mut sorted = sampler.shuffled_ids.clone();
    sorted.sort();
    assert_eq!(sorted, all_ids);
}

#[test]
fn sampler_construction_rejects_zero_size() {
    assert!(EpochShuffledSampler::<usize>::new(0, 0).is_err());
}

#[test]
fn test_epoch_boundary_reshuffles() {
    let all_ids: Vec<usize> = (0..4).collect();
    let mut sampler = EpochShuffledSampler::new(2, 13).expect("construction ok");
    let batch0 = sampler.next_batch_ids(&all_ids, &make_state_at(0)).expect("batch 0");
    let batch1 = sampler.next_batch_ids(&all_ids, &make_state_at(1)).expect("batch 1");
    let batch2 = sampler.next_batch_ids(&all_ids, &make_state_at(2)).expect("batch 2");
    assert_eq!(batch0.len(), 2);
    assert_eq!(batch1.len(), 2);
    assert_eq!(batch2.len(), 2);
    let set0: HashSet<usize> = batch0.iter().copied().collect();
    let set1: HashSet<usize> = batch1.iter().copied().collect();
    assert!(
        set0.is_disjoint(&set1),
        "batch0 and batch1 must be non-overlapping within the same epoch"
    );
    for id in &batch2 {
        assert!(all_ids.contains(id), "batch2 id {id} should be a valid training ID");
    }
    assert_eq!(sampler.epoch, Some(1));
}

#[test]
fn test_determinism_same_seed_same_sequence() {
    let all_ids: Vec<usize> = (0..8).collect();
    let seed = 12345u64;
    let mut sampler_a = EpochShuffledSampler::new(2, seed).expect("a ok");
    let mut sampler_b = EpochShuffledSampler::new(2, seed).expect("b ok");
    for iter in 0..4 {
        let state = make_state_at(iter);
        let batch_a = sampler_a.next_batch_ids(&all_ids, &state).expect("a should sample");
        let batch_b = sampler_b.next_batch_ids(&all_ids, &state).expect("b should sample");
        assert_eq!(
            batch_a, batch_b,
            "samplers with same seed must produce identical batch at iter {iter}"
        );
    }
}

fn make_multi_component_state() -> GEPAState<usize> {
    let mut seed = Candidate::new();
    seed.insert("alpha".into(), "first".into());
    seed.insert("beta".into(), "second".into());
    seed.insert("gamma".into(), "third".into());
    GEPAState::new(seed, evaluation(&[0], &[0.5]), FrontierType::Instance, None)
        .expect("construction should succeed")
}

#[test]
fn round_robin_cycles_through_all_components() {
    let mut state = make_multi_component_state();
    let candidate = state.program_candidates[0].clone();
    let selector = RoundRobinSelector;
    let mut seen: HashSet<String> = HashSet::new();
    for _ in 0..3 {
        let names = selector
            .select_components(&mut state, &[], &[], 0, &candidate)
            .expect("should select");
        assert_eq!(names.len(), 1);
        seen.insert(names[0].clone());
    }
    assert_eq!(seen.len(), 3);
}

#[test]
fn round_robin_wraps_around() {
    let mut state = make_multi_component_state();
    let candidate = state.program_candidates[0].clone();
    let selector = RoundRobinSelector;
    let mut calls: Vec<String> = Vec::new();
    for _ in 0..6 {
        let names = selector
            .select_components(&mut state, &[], &[], 0, &candidate)
            .expect("should select");
        calls.push(names[0].clone());
    }
    assert_eq!(calls[0], calls[3]);
    assert_eq!(calls[1], calls[4]);
    assert_eq!(calls[2], calls[5]);
}

#[test]
fn all_component_selector_returns_all_components() {
    let mut state = make_multi_component_state();
    let candidate = state.program_candidates[0].clone();
    let selector = AllComponentSelector;
    let names = selector
        .select_components(&mut state, &[], &[], 0, &candidate)
        .expect("should select");
    assert_eq!(names.len(), 3);
    assert!(names.contains(&"alpha".to_string()));
    assert!(names.contains(&"beta".to_string()));
    assert!(names.contains(&"gamma".to_string()));
    assert_eq!(names, vec!["alpha", "beta", "gamma"]);
}

#[test]
fn no_components_is_an_error() {
    let mut state = GEPAState::new(
        Candidate::new(),
        evaluation(&[0], &[0.5]),
        FrontierType::Instance,
        None,
    )
    .unwrap();
    let empty = Candidate::new();
    assert!(RoundRobinSelector.select_components(&mut state, &[], &[], 0, &empty).is_err());
    assert!(AllComponentSelector.select_components(&mut state, &[], &[], 0, &empty).is_err());
}

#[test]
fn test_round_robin_single_component() {
    let mut seed = Candidate::new();
    seed.insert("only".into(), "value".into());
    let mut state = GEPAState::new(seed, evaluation(&[0], &[0.5]), FrontierType::Instance, None)
        .expect("construction should succeed");
    let candidate = state.program_candidates[0].clone();
    let selector = RoundRobinSelector;
    for _ in 0..3 {
        let names = selector
            .select_components(&mut state, &[], &[], 0, &candidate)
            .expect("should select");
        assert_eq!(names, vec!["only".to_string()]);
    }
}

#[test]
fn round_robin_per_candidate_independence() {
    let mut state = make_multi_component_state();
    let mut cand2 = Candidate::new();
    cand2.insert("alpha".into(), "a2".into());
    cand2.insert("beta".into(), "b2".into());
    cand2.insert("gamma".into(), "g2".into());
    state
        .update_state_with_new_program(vec![0], cand2, evaluation(&[0], &[0.8]), 1)
        .expect("update should succeed");
    let candidate0 = state.program_candidates[0].clone();
    let candidate1 = state.program_candidates[1].clone();
    let selector = RoundRobinSelector;
    selector.select_components(&mut state, &[], &[], 0, &candidate0).unwrap();
    selector.select_components(&mut state, &[], &[], 0, &candidate0).unwrap();
    let next_for_1 = selector
        .select_components(&mut state, &[], &[], 1, &candidate1)
        .expect("should select for candidate 1");
    assert_eq!(next_for_1.len(), 1);
    assert_eq!(next_for_1[0], "alpha");
}

fn make_state_with_two_programs() -> GEPAState<usize> {
    let mut state = GEPAState::new(
        candidate("seed"),
        evaluation(&[0, 1, 2], &[0.3, 0.5, 0.7]),
        FrontierType::Instance,
        None,
    )
    .expect("should construct");
    state
        .update_state_with_new_program(
            vec![0],
            candidate("improved"),
            evaluation(&[0, 1, 2], &[0.8, 0.9, 1.0]),
            3,
        )
        .expect("update should succeed");
    state
}

#[test]
fn full_eval_policy_get_eval_ids_returns_all() {
    let state = make_state_with_two_programs();
    let all_ids: Vec<usize> = vec![0, 1, 2, 3, 4];
    let ids = FullEvalPolicy.get_eval_ids(&all_ids, &state, None);
    assert_eq!(ids, all_ids);
}

#[test]
fn full_eval_policy_best_program_picks_highest_scorer() {
    let state = make_state_with_two_programs();
    let best = FullEvalPolicy.get_best_program(&state).expect("should find best");
    assert_eq!(best, 1);
}

#[test]
fn full_eval_policy_valset_score_correct() {
    let state = make_state_with_two_programs();
    let score0 = FullEvalPolicy
        .get_valset_score(0, &state)
        .expect("should get score for candidate 0");
    let score1 = FullEvalPolicy
        .get_valset_score(1, &state)
        .expect("should get score for candidate 1");
    assert!((f(score0) - 0.5).abs() < 1e-9, "seed avg should be ~0.5");
    assert!((f(score1) - 0.9).abs() < 1e-9, "improved avg should be ~0.9");
}

#[test]
fn full_eval_policy_out_of_range_errors() {
    let state = make_state_with_two_programs();
    let result = FullEvalPolicy.get_valset_score(99, &state);
    assert!(result.is_err());
    assert_eq!(
        result.err().unwrap().to_string(),
        "Configuration error: program_idx 99 out of range (len=2)"
    );
}

#[test]
fn full_eval_policy_no_candidates_errors() {
    let mut state = make_state_with_two_programs();
    state.program_candidates.clear();
    state.prog_candidate_val_subscores.clear();
    assert!(FullEvalPolicy.get_best_program(&state).is_err());
}

#[test]
fn test_tie_breaking_prefers_higher_coverage() {
    let mut state = GEPAState::new(
        candidate("seed"),
        evaluation(&[0, 1, 2], &[0.5, 0.5, 0.5]),
        FrontierType::Instance,
        None,
    )
    .expect("should construct");
    state
        .update_state_with_new_program(
            vec![0],
            candidate("candidate1"),
            evaluation(&[3], &[0.5]),
            1,
        )
        .expect("update should succeed");
    let best = FullEvalPolicy.get_best_program(&state).expect("should find best");
    assert_eq!(best, 0, "tie-breaking should prefer the candidate with higher coverage");
    state
        .update_state_with_new_program(
            vec![0],
            candidate("candidate2"),
            evaluation(&[0, 1, 2, 3], &[0.5, 0.5, 0.5, 0.5]),
            1,
        )
        .expect("update should succeed");
    assert_eq!(FullEvalPolicy.get_best_program(&state).unwrap(), 2);
}

fn make_two_candidate_state() -> GEPAState<usize> {
    let mut state = GEPAState::new(
        candidate("seed"),
        evaluation(&[0, 1, 2], &[0.3, 0.5, 0.7]),
        FrontierType::Instance,
        None,
    )
    .expect("construction should succeed");
    state.i = state.i.wrapping_add(1);
    state
        .update_state_with_new_program(
            vec![0],
            candidate("improved"),
            evaluation(&[0, 1, 2], &[0.9, 0.9, 0.9]),
            3,
        )
        .expect("update should succeed");
    state
}

#[test]
fn current_best_returns_highest_scorer() {
    let state = make_two_candidate_state();
    let idx = CurrentBestSelector.select_candidate_idx(&state).expect("should select");
    assert_eq!(idx, 1);
}

#[test]
fn epsilon_greedy_always_best_when_epsilon_zero() {
    let state = make_two_candidate_state();
    let mut selector =
        EpsilonGreedySelector::new(s(0.0), 42, Floats).expect("construction should succeed");
    for _ in 0..20 {
        let idx = selector.select_candidate_idx(&state).expect("should select");
        assert_eq!(idx, 1, "greedy should always pick the best");
    }
}

#[test]
fn epsilon_greedy_always_random_when_epsilon_one() {
    let state = make_two_candidate_state();
    let mut selector =
        EpsilonGreedySelector::new(s(1.0), 99, Floats).expect("construction should succeed");
    let mut seen = HashSet::new();
    for _ in 0..20 {
        let idx = selector.select_candidate_idx(&state).expect("should select");
        assert!(idx < state.program_candidates.len());
        seen.insert(idx);
    }
    assert_eq!(seen.len(), 2);
}

#[test]
fn epsilon_greedy_rejects_invalid_epsilon() {
    assert!(EpsilonGreedySelector::new(s(1.5), 0, Floats).is_err());
    assert!(EpsilonGreedySelector::new(s(-0.1), 0, Floats).is_err());
    assert!(EpsilonGreedySelector::new(s(f64::NAN), 0, Floats).is_err());
    assert_eq!(
        EpsilonGreedySelector::new(s(1.5), 0, Floats).err().unwrap().to_string(),
        "Configuration error: epsilon must be in [0.0, 1.0], got 1.5"
    );
}

#[test]
fn the_draw_decides_between_any_and_best() {
    let state = make_two_candidate_state();
    let selector = EpsilonGreedySelector::new(s(0.5), 5, Floats).unwrap();
    assert_eq!(selector.decide(&state, s(0.5), 0).unwrap(), 1);
    assert_eq!(selector.decide(&state, s(0.9), 0).unwrap(), 1);
    assert_eq!(selector.decide(&state, s(0.49), 0).unwrap(), 0);
    assert_eq!(selector.decide(&state, s(0.49), 1).unwrap(), 1);
}

#[test]
fn pareto_selector_returns_valid_index() {
    let state = make_two_candidate_state();
    let mut selector = ParetoCandidateSelector::new(0);
    let idx = selector.select_candidate_idx(&state).expect("should select");
    assert!(idx < state.program_candidates.len());
}

#[test]
fn top_k_selector_returns_valid_index() {
    let state = make_two_candidate_state();
    let mut selector = TopKParetoCandidateSelector::new(2, 0).expect("k=2 is valid");
    let idx = selector.select_candidate_idx(&state).expect("should select");
    assert!(idx < state.program_candidates.len());
}

#[test]
fn top_k_zero_errors() {
    assert!(TopKParetoCandidateSelector::new(0, 0).is_err());
}

#[test]
fn test_top_k_fallback_to_idxmax() {
    let state = make_two_candidate_state();
    let scores = state.program_full_scores_val_set();
    assert!(f(scores[1]) > f(scores[0]), "sanity: candidate 1 should score higher");
    let mut selector = TopKParetoCandidateSelector::new(1, 42).expect("k=1 is valid");
    let idx = selector.select_candidate_idx(&state).expect("should select");
    assert!(idx < state.program_candidates.len(), "fallback index must be in range");
    assert_eq!(idx, 1, "k=1 should select the single best-scoring candidate");
}

#[test]
fn top_k_falls_back_when_no_front_has_a_top_candidate() {
    let mut state = make_two_candidate_state();
    for id in 0..3 {
        state.program_at_pareto_front_valset.insert(id, HashSet::from([0]));
    }
    let mut selector = TopKParetoCandidateSelector::new(1, 42).expect("k=1 is valid");
    assert_eq!(selector.select_candidate_idx(&state).unwrap(), 1);
}

#[test]
fn test_top_k_with_k_larger_than_candidates() {
    let state = make_two_candidate_state();
    let mut selector = TopKParetoCandidateSelector::new(10, 7).expect("k=10 is valid");
    let idx = selector
        .select_candidate_idx(&state)
        .expect("should select with oversized k");
    assert!(
        idx < state.program_candidates.len(),
        "selected index must be a valid candidate index"
    );
}

#[test]
fn test_pareto_selector_empty_frontier_errors() {
    let mut state = make_two_candidate_state();
    state.program_at_pareto_front_valset.clear();
    let mut selector = ParetoCandidateSelector::new(0);
    let result = selector.select_candidate_idx(&state);
    assert!(
        matches!(result, Err(GEPAError::EmptyFrontier)),
        "empty Pareto frontier should return EmptyFrontier error"
    );
}

#[test]
fn the_positions_fix_the_order_of_an_epoch() {
    let ids: Vec<usize> = vec![10, 20, 30, 40, 50];
    assert_eq!(arrange(&ids, &vec![4, 2, 0, 1, 3], 3), vec![50, 30, 10, 20, 40, 50]);
    assert_eq!(arrange(&ids, &vec![0, 1, 2, 3, 4], 5), ids);
    assert_eq!(arrange(&ids, &vec![1, 0, 3, 2, 4], 7), vec![20, 10, 40, 30, 50, 20, 10]);
}

#[test]
fn padding_counts_what_comes_twice() {
    let ids: Vec<usize> = vec![7, 7, 7, 1];
    assert_eq!(arrange(&ids, &vec![3, 0, 1, 2], 3), vec![1, 7, 7, 7, 1, 1]);
    assert_eq!(arrange(&ids, &vec![0, 1, 2, 3], 8), vec![7, 7, 7, 1, 1, 1, 7, 1]);
}

#[test]
fn the_seed_fixes_the_order_of_an_epoch() {
    let ids: Vec<usize> = (0..50).collect();
    let order = |seed: u64| {
        let mut sampler = EpochShuffledSampler::new(5, seed).unwrap();
        sampler.next_batch_ids(&ids, &make_state_at(0)).unwrap();
        sampler.shuffled_ids
    };
    assert_eq!(order(7), order(7));
    assert_ne!(order(7), order(8));
    let mut expected = ids.clone();
    expected.shuffle(&mut StdRng::seed_from_u64(7));
    assert_eq!(order(7), expected);
}

#[test]
fn the_seed_fixes_the_choices() {
    let state = make_two_candidate_state();
    let explored = |seed: u64| -> Vec<usize> {
        let mut selector = EpsilonGreedySelector::new(s(1.0), seed, Floats).unwrap();
        (0..64).map(|_| selector.select_candidate_idx(&state).unwrap()).collect()
    };
    assert_eq!(explored(3), explored(3));
    assert_ne!(explored(3), explored(4));
    let sampled = |seed: u64| -> Vec<usize> {
        let mut selector = TopKParetoCandidateSelector::new(2, seed).unwrap();
        (0..64).map(|_| selector.select_candidate_idx(&state).unwrap()).collect()
    };
    assert_eq!(sampled(3), sampled(3));
}

#[test]
fn a_trial_takes_one_choice_and_one_batch() {
    let state = make_two_candidate_state();
    let ids: Vec<usize> = (0..12).collect();
    for seed in 0..16 {
        let mut selector = EpsilonGreedySelector::new(s(0.8), seed, Floats).unwrap();
        let mut sampler = EpochShuffledSampler::new(4, seed).unwrap();
        let mut proposer = ReflectiveMutationProposer {
            candidate_selector: EpsilonGreedySelector::new(s(0.8), seed, Floats).unwrap(),
            component_selector: RoundRobinSelector,
            batch_sampler: EpochShuffledSampler::new(4, seed).unwrap(),
            reflection_prompt_template: None,
            perfect_score: None,
            skip_perfect_score: false,
        };
        for _ in 0..8 {
            let trial = proposer.select(&state, &ids).unwrap();
            assert_eq!(trial.parent, selector.select_candidate_idx(&state).unwrap());
            assert_eq!(trial.ids, sampler.next_batch_ids(&ids, &state).unwrap());
        }
    }
}
