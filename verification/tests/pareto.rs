#![allow(dead_code)]
use std::collections::HashSet;

use gepa::utils::pareto::{
    find_dominator_programs, idxmax, is_dominated, program_at, remove_dominated_programs,
    sampling_list, select_program_candidate_from_pareto_front,
};
use gepa::{GEPAError, KeyMap, ProgramIdx, Score};
use rand::rngs::StdRng;
use rand::{Rng, SeedableRng};

fn s(x: f64) -> Score {
    Score::from_bits(x.to_bits())
}

fn scores(list: &[f64]) -> Vec<Score> {
    list.iter().map(|x| s(*x)).collect()
}

fn make_frontier(entries: &[(u32, &[ProgramIdx])]) -> KeyMap<u32, HashSet<ProgramIdx>> {
    let mut m = KeyMap::new();
    for (k, idxs) in entries {
        m.insert(*k, idxs.iter().copied().collect());
    }
    m
}

fn surviving(m: &KeyMap<u32, HashSet<ProgramIdx>>) -> HashSet<ProgramIdx> {
    (0..m.len()).flat_map(|i| m.value_at(i).iter().copied()).collect()
}

#[test]
fn is_dominated_when_fully_covered() {
    let frontier = make_frontier(&[(0, &[0, 1]), (1, &[0, 1])]);
    let pool: HashSet<ProgramIdx> = [1].into();
    assert!(is_dominated(0, &pool, &frontier));
}

#[test]
fn not_dominated_when_unique_on_one_key() {
    let frontier = make_frontier(&[(0, &[0, 1]), (1, &[0])]);
    let pool: HashSet<ProgramIdx> = [1].into();
    assert!(!is_dominated(0, &pool, &frontier));
}

#[test]
fn not_dominated_when_not_in_any_front() {
    let frontier = make_frontier(&[(0, &[0, 1])]);
    let pool: HashSet<ProgramIdx> = [0, 1].into();
    assert!(!is_dominated(99, &pool, &frontier));
}

#[test]
fn remove_dominated_programs_eliminates_weak_fully_covered_program() {
    let frontier = make_frontier(&[(0, &[0, 1]), (1, &[2]), (2, &[1])]);
    let result = remove_dominated_programs(&frontier, Some(&scores(&[0.2, 0.7, 0.9])));
    let surviving = surviving(&result);
    assert!(!surviving.contains(&0), "program 0 should be dominated and removed");
    assert!(surviving.contains(&1), "program 1 should survive (unique on key 2)");
    assert!(surviving.contains(&2), "program 2 should survive (unique on key 1)");
}

#[test]
fn remove_dominated_preserves_all_when_no_one_is_dominated() {
    let frontier = make_frontier(&[(0, &[0]), (1, &[1]), (2, &[2])]);
    let result = remove_dominated_programs(&frontier, Some(&scores(&[0.5, 0.6, 0.7])));
    assert_eq!(surviving(&result), HashSet::from([0, 1, 2]));
}

#[test]
fn remove_dominated_programs_single_program_survives() {
    let frontier = make_frontier(&[(0, &[0])]);
    let result = remove_dominated_programs(&frontier, Some(&scores(&[0.5])));
    assert_eq!(surviving(&result), HashSet::from([0]));
}

#[test]
fn find_dominator_programs_returns_non_dominated_set() {
    let frontier = make_frontier(&[(0, &[0, 1]), (1, &[1, 2])]);
    let dominators = find_dominator_programs(&frontier, &scores(&[0.2, 0.9, 0.5]));
    assert_eq!(dominators, vec![1], "only program 1 should survive");
}

#[test]
fn selection_returns_valid_program_index() {
    let frontier = make_frontier(&[(0, &[0, 1]), (1, &[1])]);
    let mut rng = StdRng::seed_from_u64(42);
    let selected =
        select_program_candidate_from_pareto_front(&frontier, &scores(&[0.5, 0.9]), &mut rng)
            .expect("selection should succeed");
    assert!(selected == 0 || selected == 1, "selected program must be in frontier");
}

#[test]
fn selection_is_deterministic_with_same_seed() {
    let frontier = make_frontier(&[(0, &[0, 1]), (1, &[1])]);
    let list = scores(&[0.5, 0.9]);
    let mut rng1 = StdRng::seed_from_u64(1234);
    let mut rng2 = StdRng::seed_from_u64(1234);
    let sel1 = select_program_candidate_from_pareto_front(&frontier, &list, &mut rng1).unwrap();
    let sel2 = select_program_candidate_from_pareto_front(&frontier, &list, &mut rng2).unwrap();
    assert_eq!(sel1, sel2, "same seed should produce same selection");
}

#[test]
fn selection_on_empty_frontier_returns_error() {
    let frontier: KeyMap<u32, HashSet<ProgramIdx>> = KeyMap::new();
    let mut rng = StdRng::seed_from_u64(0);
    let result = select_program_candidate_from_pareto_front(&frontier, &vec![], &mut rng);
    assert!(
        matches!(result, Err(GEPAError::EmptyFrontier)),
        "expected EmptyFrontier error"
    );
}

#[test]
fn frequency_weighting_favours_high_coverage_program() {
    let mut frontier = make_frontier(&[(0, &[0, 1])]);
    for k in 1..5u32 {
        frontier.insert(k, HashSet::from([1usize]));
    }
    let list = scores(&[0.5, 0.9]);
    let mut rng = StdRng::seed_from_u64(999);
    let mut count_1 = 0usize;
    let trials = 500;
    for _ in 0..trials {
        if select_program_candidate_from_pareto_front(&frontier, &list, &mut rng).unwrap() == 1 {
            count_1 += 1;
        }
    }
    let fraction_1 = count_1 as f64 / f64::from(trials);
    assert!(
        fraction_1 > 0.60,
        "expected program 1 to dominate selection (got {fraction_1:.2})"
    );
}

#[test]
fn sampling_list_names_each_program_once_per_front() {
    let frontier = make_frontier(&[(0, &[0, 3]), (1, &[3]), (2, &[5])]);
    let mut list = sampling_list(&frontier);
    list.sort();
    assert_eq!(list, vec![0, 3, 3, 5]);
}

#[test]
fn draws_reach_more_than_one_survivor() {
    let frontier = make_frontier(&[(0, &[0]), (1, &[1])]);
    let list = scores(&[0.5, 0.9]);
    let mut rng = StdRng::seed_from_u64(3);
    let drawn: HashSet<usize> = (0..64)
        .map(|_| select_program_candidate_from_pareto_front(&frontier, &list, &mut rng).unwrap())
        .collect();
    assert_eq!(drawn, HashSet::from([0, 1]));
}

#[test]
fn idxmax_returns_first_occurrence_of_max() {
    assert_eq!(idxmax(&scores(&[0.1, 0.9, 0.9])).unwrap(), 1);
    assert_eq!(idxmax(&scores(&[3.0, 1.0, 2.0])).unwrap(), 0);
}

#[test]
fn idxmax_on_empty_returns_error() {
    assert!(matches!(idxmax(&vec![]), Err(GEPAError::NoCandidates)));
}

#[test]
fn test_cascading_domination() {
    let frontier = make_frontier(&[(0, &[0, 1]), (1, &[0, 1, 2])]);
    let result = remove_dominated_programs(&frontier, Some(&scores(&[0.9, 0.5, 0.3])));
    let surviving = surviving(&result);
    assert!(surviving.contains(&0), "A should survive (highest scorer, dominates all)");
    assert!(!surviving.contains(&1), "B should be dominated by A");
    assert!(!surviving.contains(&2), "C should be dominated by A after B is removed");
}

#[test]
fn test_remove_dominated_with_none_scores() {
    let frontier = make_frontier(&[(0, &[0, 1]), (1, &[0])]);
    let result = remove_dominated_programs(&frontier, None);
    assert!(
        surviving(&result).contains(&0),
        "program 0 must survive (unique on key 1)"
    );
}

#[test]
fn test_selection_with_all_zero_scores() {
    let frontier = make_frontier(&[(0, &[0, 1, 2])]);
    let mut rng = StdRng::seed_from_u64(7);
    let selected =
        select_program_candidate_from_pareto_front(&frontier, &scores(&[0.0, 0.0, 0.0]), &mut rng)
            .expect("should select even with all-zero scores");
    assert!(selected <= 2, "selected program {selected} must be a valid index (0..=2)");
}

#[test]
fn every_front_keeps_a_survivor() {
    let frontier = make_frontier(&[(0, &[0, 1]), (1, &[1, 2]), (2, &[2, 0]), (3, &[])]);
    let result = remove_dominated_programs(&frontier, Some(&scores(&[0.1, 0.2, 0.3])));
    for i in 0..3 {
        assert!(!result.value_at(i).is_empty());
    }
    assert!(result.value_at(3).is_empty());
    let left = surviving(&result);
    for p in &left {
        let pool: HashSet<usize> = left.iter().copied().filter(|q| q != p).collect();
        assert!(!is_dominated(*p, &pool, &frontier), "no survivor is dominated");
    }
}

#[test]
fn scores_compare_as_numbers() {
    assert!(s(0.0).equals(&s(-0.0)));
    assert!(s(-1.0).exceeds(&s(-2.0)));
    assert!(s(1.0).exceeds(&s(-2.0)));
    assert!(s(f64::INFINITY).exceeds(&s(f64::MAX)));
    assert!(!s(f64::NAN).exceeds(&s(0.0)) && !s(0.0).exceeds(&s(f64::NAN)));
    assert!(!s(f64::NAN).equals(&s(f64::NAN)));
    assert!(!s(f64::INFINITY).is_finite() && !s(f64::NAN).is_finite() && s(5e-324).is_finite());
    assert_eq!(Score::neg_infinity(), s(f64::NEG_INFINITY));
    assert_eq!(Score::one(), s(1.0));
    assert_eq!(s(2.5).negated(), s(-2.5));
    assert_eq!(s(f64::NAN).greater(&s(1.0)), s(1.0));
    assert_eq!(s(1.0).greater(&s(f64::NAN)), s(1.0));
}

#[test]
fn a_position_picks_by_the_number_of_fronts() {
    let frontier = make_frontier(&[(0, &[0, 3]), (1, &[3]), (2, &[5])]);
    let list = scores(&[0.1, 0.0, 0.0, 0.9, 0.0, 0.5]);
    let picked: Vec<Option<usize>> = (0..4).map(|i| program_at(&frontier, &list, i)).collect();
    assert_eq!(picked, vec![Some(3), Some(3), Some(5), None]);
}

#[test]
fn the_generator_draws_the_position() {
    let frontier = make_frontier(&[(0, &[0]), (1, &[1]), (2, &[1]), (3, &[4])]);
    let list = scores(&[0.5, 0.9, 0.0, 0.0, 0.7]);
    for seed in 0..32 {
        let mut rng = StdRng::seed_from_u64(seed);
        let chosen = select_program_candidate_from_pareto_front(&frontier, &list, &mut rng);
        let position = StdRng::seed_from_u64(seed).gen_range(0..4usize);
        assert_eq!(Some(chosen.unwrap()), program_at(&frontier, &list, position));
    }
}
