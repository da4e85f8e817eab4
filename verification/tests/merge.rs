#![allow(dead_code)]
use std::collections::HashSet;

use gepa::proposer::merge::{
    attempt_merge, component_source, does_triplet_have_desirable_predictors, filter_ancestors,
    find_common_ancestor_pair, get_ancestors, pick_weighted, AncestorLog, MergeDescription,
};
use gepa::proposer::merge_proposer::conclude_merge;
use gepa::{
    Candidate, CandidateProposal, FrontierType, GEPAState, KeyMap, MergeProposer, Score,
    ScoreArithmetic, ValsetEvaluation,
};
use rand::rngs::mock::StepRng;
use rand::rngs::StdRng;
use rand::seq::SliceRandom;
use rand::{Rng, SeedableRng};
use serde_json::Value;

#[derive(Clone, Copy)]
struct Floats;

fn s(x: f64) -> Score {
    Score::from_bits(x.to_bits())
}

fn f(x: Score) -> f64 {
    f64::from_bits(x.bits)
}

impl ScoreArithmetic for Floats {
    fn sum(&self, scores: &Vec<Score>) -> Score {
        s(scores.iter().map(|x| f(*x)).sum())
    }

    fn mean(&self, scores: &Vec<Score>) -> Score {
        s(scores.iter().map(|x| f(*x)).sum::<f64>() / scores.len() as f64)
    }

    fn plus(&self, a: Score, b: Score) -> Score {
        s(f(a) + f(b))
    }

    fn point(&self, word: u64, limit: Score) -> Score {
        s(StepRng::new(word, 0).gen::<f64>() * f(limit))
    }

    fn text(&self, x: Score) -> String {
        format!("{}", f(x))
    }

    fn parse(&self, token: &String) -> Option<Score> {
        token.parse::<f64>().ok().map(s)
    }
}

type Log = (Vec<AncestorLog>, Vec<MergeDescription>);

fn scores(list: &[f64]) -> Vec<Score> {
    list.iter().map(|x| s(*x)).collect()
}

fn candidate(entries: &[(&str, &str)]) -> Candidate {
    entries.iter().map(|(k, v)| (k.to_string(), v.to_string())).collect()
}

fn score_map(entries: &[(usize, f64)]) -> KeyMap<usize, Score> {
    let mut m = KeyMap::new();
    for (id, x) in entries {
        m.insert(*id, s(*x));
    }
    m
}

fn siblings() -> Vec<Vec<Option<usize>>> {
    vec![vec![None], vec![Some(0)], vec![Some(0)]]
}

fn merge_of(
    rng: &mut StdRng,
    agg_scores: &[f64],
    candidates: &Vec<Candidate>,
    log: &mut Log,
) -> Option<(Candidate, usize, usize, usize)> {
    let subscores = vec![score_map(&[]), score_map(&[]), score_map(&[])];
    attempt_merge::<usize, Floats>(
        rng,
        &scores(agg_scores),
        &vec![1, 2],
        log,
        candidates,
        &siblings(),
        Some((&subscores, 0)),
        20,
        &Floats,
    )
}

#[test]
fn test_find_common_ancestor_deep_chain() {
    let parent_list: Vec<Vec<Option<usize>>> =
        vec![vec![None], vec![Some(0)], vec![Some(1)], vec![Some(2)], vec![Some(3)]];
    let anc3 = get_ancestors(3, &parent_list);
    let anc4 = get_ancestors(4, &parent_list);
    assert!(anc3.contains(&0), "3's ancestors should hold 0");
    assert!(anc4.contains(&0), "4's ancestors should hold 0");
    let common: HashSet<usize> = anc3.intersection(&anc4).copied().collect();
    assert!(common.contains(&0), "0 should be a common ancestor of 3 and 4");
    assert!(common.contains(&1), "1 should be a common ancestor of 3 and 4");
    assert!(common.contains(&2), "2 should be a common ancestor of 3 and 4");
}

#[test]
fn test_ancestor_filtered_when_score_higher_than_children() {
    let anc2 = candidate(&[("a", "v0"), ("b", "w0")]);
    let c1b = candidate(&[("a", "v1"), ("b", "w0")]);
    let c2 = candidate(&[("a", "v0"), ("b", "w2")]);
    let candidates = vec![anc2, c1b, c2];
    let common: HashSet<usize> = [0].into();
    let merges_performed = (Vec::new(), Vec::new());
    let valid = filter_ancestors(
        1,
        2,
        &common,
        &merges_performed,
        &scores(&[0.9, 0.5, 0.7]),
        &candidates,
    );
    assert!(
        valid.is_empty(),
        "ancestor with higher score than both children should be filtered out"
    );
    let kept = filter_ancestors(
        1,
        2,
        &common,
        &merges_performed,
        &scores(&[0.5, 0.5, 0.7]),
        &candidates,
    );
    assert_eq!(kept, vec![0], "an equal score does not filter");
    let tried = (vec![(1, 2, 0)], Vec::new());
    assert!(filter_ancestors(1, 2, &common, &tried, &scores(&[0.5, 0.5, 0.7]), &candidates)
        .is_empty());
}

#[test]
fn test_both_children_changed_uses_higher_scorer() {
    let mut rng = StdRng::seed_from_u64(0);
    let anc = candidate(&[("a", "v0"), ("b", "w0")]);
    let c1 = candidate(&[("a", "v1"), ("b", "w0")]);
    let c2 = candidate(&[("a", "v2"), ("b", "w1")]);
    let candidates = vec![anc, c1, c2];
    let mut merges_performed: Log = (Vec::new(), Vec::new());
    let result = merge_of(&mut rng, &[0.4, 0.8, 0.6], &candidates, &mut merges_performed);
    let (merged, id1, id2, _ancestor) = result.expect("should produce a merge");
    assert_eq!((id1, id2), (1, 2));
    assert_eq!(
        merged.get("a").map(String::as_str),
        Some("v1"),
        "higher-scoring child's value (v1) should be used for the both-changed component 'a'"
    );
    assert_eq!(merged.get("b").map(String::as_str), Some("w1"));
    assert!(merges_performed.0.is_empty());
    assert_eq!(merges_performed.1, vec![(1, 2, vec![1, 2])]);
}

#[test]
fn test_content_dedup_prevents_duplicate_merges() {
    let mut rng = StdRng::seed_from_u64(42);
    let candidates =
        vec![candidate(&[("a", "v0")]), candidate(&[("a", "v0")]), candidate(&[("a", "v1")])];
    let mut merges_performed: Log = (Vec::new(), Vec::new());
    let first = merge_of(&mut rng, &[0.3, 0.5, 0.7], &candidates, &mut merges_performed);
    assert!(first.is_some(), "first merge should succeed");
    let second = merge_of(&mut rng, &[0.3, 0.5, 0.7], &candidates, &mut merges_performed);
    assert!(
        second.is_none(),
        "second identical merge should be deduped and return None"
    );
}

#[test]
fn same_content_from_another_ancestor_is_not_merged_again() {
    let mut rng = StdRng::seed_from_u64(42);
    let candidates =
        vec![candidate(&[("a", "v0")]), candidate(&[("a", "v0")]), candidate(&[("a", "v1")])];
    let mut log: Log = (Vec::new(), vec![(1, 2, vec![2])]);
    assert!(merge_of(&mut rng, &[0.3, 0.5, 0.7], &candidates, &mut log).is_none());
}

#[test]
fn test_select_eval_subsample_unbalanced_buckets() {
    let mut proposer = MergeProposer::new(true, 5, 1, 7).expect("should build");
    let scores1 = score_map(&[(0, 0.9), (1, 0.9), (2, 0.9), (3, 0.9)]);
    let scores2 = score_map(&[(0, 0.1), (1, 0.1), (2, 0.1), (3, 0.1)]);
    let subsample = proposer.select_eval_subsample(&scores1, &scores2, 3);
    assert_eq!(subsample.len(), 3, "subsample should still return requested count");
    for id in &subsample {
        assert!(scores1.contains_key(id), "sampled id {id} must be in common set");
    }
}

#[test]
fn test_select_eval_subsample_no_overlap() {
    let mut proposer = MergeProposer::new(true, 5, 1, 9).expect("should build");
    let scores1 = score_map(&[(0, 0.5), (1, 0.5)]);
    let scores2 = score_map(&[(2, 0.5), (3, 0.5)]);
    let subsample = proposer.select_eval_subsample(&scores1, &scores2, 3);
    assert!(
        subsample.is_empty(),
        "disjoint val ID sets should yield empty subsample"
    );
}

#[test]
fn a_subsample_takes_from_each_bucket() {
    let mut proposer = MergeProposer::new(true, 5, 1, 9).expect("should build");
    let scores1 = score_map(&[(0, 0.9), (1, 0.9), (2, 0.1), (3, 0.1), (4, 0.5), (5, 0.5)]);
    let scores2 = score_map(&[(0, 0.1), (1, 0.1), (2, 0.9), (3, 0.9), (4, 0.5), (5, 0.5)]);
    let subsample = proposer.select_eval_subsample(&scores1, &scores2, 3);
    assert_eq!(subsample.len(), 3);
    for bucket in [[0, 1], [2, 3], [4, 5]] {
        assert_eq!(subsample.iter().filter(|id| bucket.contains(id)).count(), 1);
    }
    let all = proposer.select_eval_subsample(&scores1, &scores2, 6);
    assert_eq!(all.iter().copied().collect::<HashSet<_>>().len(), 6);
}

#[test]
fn a_subsample_never_repeats() {
    let mut proposer = MergeProposer::new(true, 5, 1, 3).expect("should build");
    let both = score_map(&[(0, 0.9), (1, 0.9)]);
    let ids = proposer.select_eval_subsample(&both, &both, 5);
    assert_eq!(ids.len(), 2);
    assert!(ids.contains(&0) && ids.contains(&1));
}

#[test]
fn the_seed_fixes_the_subsample() {
    let better: Vec<(usize, f64)> = (0..40).map(|i| (i, 0.9)).collect();
    let worse: Vec<(usize, f64)> = (0..40).map(|i| (i, 0.1)).collect();
    let (scores1, scores2) = (score_map(&better), score_map(&worse));
    let drawn = |seed: u64| {
        let mut proposer = MergeProposer::new(true, 5, 1, seed).expect("should build");
        proposer.select_eval_subsample(&scores1, &scores2, 9)
    };
    assert_eq!(drawn(4), drawn(4));
    assert_ne!(drawn(4), drawn(5));
    let positions: Vec<usize> = (0..40).collect();
    let mut rng = StdRng::seed_from_u64(4);
    let first: Vec<usize> = positions.choose_multiple(&mut rng, 3).copied().collect();
    assert_eq!(drawn(4)[..3], first[..]);
}

#[test]
fn the_seed_fixes_the_merge() {
    let state = improved_state();
    let made = |seed: u64| {
        let mut proposer = MergeProposer::new(true, 10, 1, seed).expect("should build");
        proposer.last_iter_found_new_program = true;
        proposer.schedule_if_needed();
        let plan = proposer.prepare(&state, &Floats).expect("a merge is possible");
        (plan.program, plan.subsample_ids, proposer.rng)
    };
    for seed in 0..8 {
        assert_eq!(made(seed), made(seed));
    }
}

#[test]
fn a_toss_up_is_the_generators_choice() {
    let candidates = vec![
        candidate(&[("a", "v0"), ("b", "w0")]),
        candidate(&[("a", "v1"), ("b", "w1")]),
        candidate(&[("a", "v2"), ("b", "w0")]),
    ];
    let made: HashSet<Vec<usize>> = (0..32)
        .map(|seed| {
            let mut rng = StdRng::seed_from_u64(seed);
            let mut log: Log = (Vec::new(), Vec::new());
            let merge = merge_of(&mut rng, &[0.1, 0.5, 0.5], &candidates, &mut log);
            assert!(merge.is_some());
            log.1[0].2.clone()
        })
        .collect();
    assert_eq!(made, HashSet::from([vec![1, 1], vec![2, 1]]));
}

fn improved_state() -> GEPAState<usize> {
    let evaluation = |list: &[f64]| {
        ValsetEvaluation::from_vecs(
            (0..list.len()).collect(),
            list.iter().map(|_| Value::Null).collect(),
            scores(list),
            None,
            &Floats,
        )
    };
    let mut state = GEPAState::new(
        candidate(&[("a", "v0"), ("b", "w0")]),
        evaluation(&[0.1, 0.1, 0.1]),
        FrontierType::Instance,
        None,
    )
    .expect("should construct");
    state
        .update_state_with_new_program(
            vec![0],
            candidate(&[("a", "v1"), ("b", "w0")]),
            evaluation(&[1.0, 0.2, 0.5]),
            3,
        )
        .unwrap();
    state
        .update_state_with_new_program(
            vec![0],
            candidate(&[("a", "v0"), ("b", "w1")]),
            evaluation(&[0.2, 1.0, 0.5]),
            3,
        )
        .unwrap();
    state
}

#[test]
fn test_propose_mut_use_merge_false() {
    let mut proposer = MergeProposer::new(false, 10, 1, 1).expect("should build");
    proposer.merges_due = 99;
    proposer.last_iter_found_new_program = true;
    let state = GEPAState::new(
        candidate(&[("instructions", "test")]),
        ValsetEvaluation::from_vecs(
            vec![0usize],
            vec![Value::from("out")],
            scores(&[0.5]),
            None,
            &Floats,
        ),
        FrontierType::Instance,
        None,
    )
    .expect("should construct");
    assert!(
        proposer.prepare(&state, &Floats).is_none(),
        "use_merge=false must never give a merge"
    );
    assert!(proposer.prepare(&improved_state(), &Floats).is_none());
}

#[test]
fn a_due_merge_is_prepared_and_concluded() {
    let state = improved_state();
    let mut proposer = MergeProposer::new(true, 10, 1, 1).expect("should build");
    assert!(proposer.prepare(&state, &Floats).is_none(), "none is due");
    proposer.last_iter_found_new_program = true;
    proposer.schedule_if_needed();
    assert_eq!(proposer.merges_due, 1);
    let plan = proposer.prepare(&state, &Floats).expect("a merge is possible");
    assert_eq!((plan.id1, plan.id2, plan.ancestor), (1, 2, 0));
    assert_eq!(plan.program, candidate(&[("a", "v1"), ("b", "w1")]));
    assert_eq!(plan.subsample_ids.len(), 3, "no more than three are shared");
    for (i, id) in plan.subsample_ids.iter().enumerate() {
        assert_eq!(plan.scores1[i], scores(&[1.0, 0.2, 0.5])[*id]);
        assert_eq!(plan.scores2[i], scores(&[0.2, 1.0, 0.5])[*id]);
    }
    assert_eq!(proposer.merges_performed.0, vec![(1, 2, 0)]);
    let sum1 = Floats.sum(&plan.scores1);
    let sum2 = Floats.sum(&plan.scores2);
    let proposal = conclude_merge(plan, scores(&[1.0, 1.0, 1.0]), &Floats);
    assert_eq!(proposal.parent_program_ids, vec![1, 2]);
    assert_eq!(proposal.subsample_scores_before, Some(vec![sum1, sum2]));
    assert_eq!(proposal.tag, "merge");
    proposer.record_accepted();
    assert_eq!((proposer.merges_due, proposer.total_merges_tested), (0, 1));
}

#[test]
fn merges_end_with_the_budget() {
    let mut proposer = MergeProposer::new(true, 1, 1, 1).expect("should build");
    proposer.last_iter_found_new_program = true;
    proposer.schedule_if_needed();
    proposer.record_accepted();
    proposer.schedule_if_needed();
    assert_eq!(proposer.merges_due, 0);
}

#[test]
fn too_little_overlap_prevents_a_merge() {
    let mut state = improved_state();
    state.prog_candidate_val_subscores[2] = score_map(&[(1, 1.0)]);
    let mut proposer = MergeProposer::new(true, 10, 2, 1).expect("should build");
    proposer.last_iter_found_new_program = true;
    proposer.schedule_if_needed();
    assert!(proposer.prepare(&state, &Floats).is_none());
}

#[test]
fn test_merge_three_component_system() {
    let mut rng = StdRng::seed_from_u64(99);
    let anc = candidate(&[("a", "v0"), ("b", "w0"), ("c", "u0")]);
    let c1 = candidate(&[("a", "v0"), ("b", "w1"), ("c", "u0")]);
    let c2 = candidate(&[("a", "v1"), ("b", "w0"), ("c", "u1")]);
    let candidates = vec![anc, c1, c2];
    let mut merges_performed: Log = (Vec::new(), Vec::new());
    let result = merge_of(&mut rng, &[0.3, 0.6, 0.7], &candidates, &mut merges_performed);
    let (merged, _id1, _id2, _ancestor) = result.expect("3-component merge should succeed");
    assert_eq!(
        merged.get("a").map(String::as_str),
        Some("v1"),
        "component 'a' should come from child2 (only child that changed it)"
    );
    assert_eq!(
        merged.get("b").map(String::as_str),
        Some("w1"),
        "component 'b' should come from child1 (only child that changed it)"
    );
    assert_eq!(
        merged.get("c").map(String::as_str),
        Some("u1"),
        "component 'c' should come from child2 (only child that changed it)"
    );
}

#[test]
fn desirable_predictors_detected() {
    let candidates = vec![
        candidate(&[("a", "v1"), ("b", "w1")]),
        candidate(&[("a", "v1"), ("b", "w2")]),
        candidate(&[("a", "v2"), ("b", "w1")]),
    ];
    assert!(does_triplet_have_desirable_predictors(&candidates, 0, 1, 2));
}

#[test]
fn no_desirable_predictors_when_both_changed() {
    let candidates =
        vec![candidate(&[("a", "v1")]), candidate(&[("a", "v2")]), candidate(&[("a", "v3")])];
    assert!(!does_triplet_have_desirable_predictors(&candidates, 0, 1, 2));
}

#[test]
fn get_ancestors_walks_chain() {
    let parent_list: Vec<Vec<Option<usize>>> = vec![vec![None], vec![Some(0)], vec![Some(1)]];
    let ancestors = get_ancestors(2, &parent_list);
    assert!(ancestors.contains(&1));
    assert!(ancestors.contains(&0));
    assert_eq!(ancestors.len(), 2);
}

#[test]
fn merge_proposer_zero_overlap_floor_errors() {
    let result = MergeProposer::new(true, 5, 0, 42);
    assert!(result.is_err(), "val_overlap_floor=0 should error");
}

#[test]
fn a_changed_component_comes_from_the_better_child() {
    let t = |x: &str| x.to_string();
    let pick = |a, b, c, x: f64, y: f64| component_source(&t(a), &t(b), &t(c), &s(x), &s(y), 7, 9);
    assert_eq!(pick("v", "v", "w", 0.9, 0.1), Some(9));
    assert_eq!(pick("v", "w", "v", 0.1, 0.9), Some(7));
    assert_eq!(pick("v", "x", "y", 0.1, 0.9), Some(9));
    assert_eq!(pick("v", "x", "y", 0.9, 0.1), Some(7));
    assert_eq!(pick("v", "x", "y", 0.5, 0.5), None, "an even match is drawn");
    assert_eq!(pick("v", "v", "v", 0.1, 0.9), Some(7));
}

#[test]
fn a_point_falls_on_the_ancestor_whose_weight_covers_it() {
    let agg = scores(&[0.25, 0.5, 0.25]);
    let list = vec![0, 1, 2];
    assert_eq!(pick_weighted(&list, &agg, s(0.0), &Floats), 0);
    assert_eq!(pick_weighted(&list, &agg, s(0.3), &Floats), 1);
    assert_eq!(pick_weighted(&list, &agg, s(0.9), &Floats), 2);
    assert_eq!(pick_weighted(&list, &agg, s(7.0), &Floats), 0);
}

#[test]
fn an_ancestor_of_the_other_is_no_pair() {
    let candidates =
        vec![candidate(&[("a", "v0")]), candidate(&[("a", "v0")]), candidate(&[("a", "v1")])];
    let chain = vec![vec![None], vec![Some(0)], vec![Some(1)]];
    let mut rng = StdRng::seed_from_u64(1);
    let log: Log = (Vec::new(), Vec::new());
    let agg = scores(&[0.3, 0.5, 0.7]);
    let none = find_common_ancestor_pair(
        &mut rng,
        &chain,
        &vec![1, 2],
        &log,
        &agg,
        &candidates,
        20,
        &Floats,
    );
    assert!(none.is_none());
    let found = find_common_ancestor_pair(
        &mut rng,
        &siblings(),
        &vec![1, 2],
        &log,
        &agg,
        &candidates,
        20,
        &Floats,
    );
    assert_eq!(found, Some((1, 2, 0)));
}

#[test]
fn candidate_proposal_builder() {
    let c = candidate(&[("instructions", "improved")]);
    let proposal = CandidateProposal::new(c, vec![0])
        .with_tag("reflective_mutation")
        .with_subsample(vec![0usize, 1], scores(&[0.5, 0.4]), scores(&[0.7, 0.8]))
        .with_metadata("ancestor", Value::from(3));
    assert_eq!(proposal.tag, "reflective_mutation");
    assert!(proposal.subsample_indices.is_some());
    assert_eq!(proposal.metadata.get(&"ancestor".to_string()), Some(&Value::from(3)));
}

#[test]
fn a_proposal_is_cloned_whole() {
    let proposal = CandidateProposal::new(candidate(&[("a", "b")]), vec![2, 5])
        .with_tag("merge")
        .with_subsample(vec![4usize, 1], scores(&[0.5]), scores(&[0.7, 0.8]))
        .with_metadata("ancestor", Value::from(3));
    assert_eq!(format!("{:?}", proposal.clone()), format!("{proposal:?}"));
    let bare: CandidateProposal<usize> = CandidateProposal::new(candidate(&[]), vec![]);
    assert_eq!(format!("{:?}", bare.clone()), format!("{bare:?}"));
}

#[test]
fn shows_improvement_returns_correct_result() {
    let c = candidate(&[("instructions", "v2")]);
    let improving = CandidateProposal::new(c.clone(), vec![0]).with_subsample(
        vec![0usize],
        scores(&[0.4]),
        scores(&[0.8]),
    );
    assert_eq!(improving.shows_improvement(&Floats), Some(true));
    let regressing = CandidateProposal::new(c.clone(), vec![0]).with_subsample(
        vec![0usize],
        scores(&[0.8]),
        scores(&[0.4]),
    );
    assert_eq!(regressing.shows_improvement(&Floats), Some(false));
    let no_data = CandidateProposal::<usize>::new(c, vec![0]);
    assert_eq!(no_data.shows_improvement(&Floats), None);
}
