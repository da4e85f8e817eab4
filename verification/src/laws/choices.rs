//! Which candidates are chosen.
use std::collections::HashSet;

use rand::rngs::StdRng;
use serde_json::Value;
use vstd::prelude::*;

use crate::error::Result;
use crate::keyed::{KeyMap, MapKey};
use crate::laws::merges::counting_gives_the_size;
use crate::optimizer::data_loader::DataId;
use crate::optimizer::state::{component_names, GEPAState};
use crate::proposer::merge::count_keys;
use crate::score::{best_place_is_first_maximum, lowest, Score, ScoreArithmetic, SIGN_BIT};
use crate::strategies::candidate_selector::{
    is_probability, narrowed, one_score, strongest_order, CandidateSelector, CurrentBestSelector,
    EpsilonGreedySelector, TopKParetoCandidateSelector,
};
use crate::strategies::component_selector::{took_turn, AllComponentSelector, ComponentSelector};
use crate::strategies::eval_policy::{
    best_program, EvalPolicy, FullEvalPolicy,
};
use crate::text::text_views;
use crate::utils::pareto::{
    coverage, covered, dominated, drawn_from, elimination_order, final_survivors, fronts,
    fronts_keep_a_survivor, lemma_survivors_within, lists_fronts, non_dominated, on_some_front,
    rank_score, restricted, sampled_from, sampled_programs_survive, selected,
    survivor_is_on_the_frontier, survivors_are_undominated, tried_before, weighted_survivors,
};

verus! {

/// The number of examples that candidate `i` was scored on.
pub open spec fn examples_of<Id: DataId>(state: GEPAState<Id>, i: int) -> nat {
    state.prog_candidate_val_subscores@[i]@.dom().len()
}

/// No candidate has a higher mean score than the best one, none with as high a
/// mean score was scored on more examples, and none before it is as good.
pub proof fn the_best_program_is_first_of_the_best<Id: DataId>(state: GEPAState<Id>, n: int)
    requires
        1 <= n,
        forall|i: int| 0 <= i < n ==> !(#[trigger] state.mean_of(i)).nan(),
    ensures
        ({
            let best = best_program(state, n).0;
            let top = state.mean_of(best);
            &&& 0 <= best < n
            &&& forall|i: int| 0 <= i < n ==> top.at_least(#[trigger] state.mean_of(i))
            &&& forall|i: int|
                0 <= i < n && (#[trigger] state.mean_of(i)).level(top) ==> examples_of(state, i)
                    <= examples_of(state, best)
            &&& forall|i: int|
                0 <= i < best && (#[trigger] state.mean_of(i)).level(top) ==> examples_of(state, i)
                    < examples_of(state, best)
        }),
{
    lemma_best(state, n);
}

proof fn lemma_best<Id: DataId>(state: GEPAState<Id>, n: int)
    requires
        1 <= n,
        forall|i: int| 0 <= i < n ==> !(#[trigger] state.mean_of(i)).nan(),
    ensures
        ({
            let (best, score, count) = best_program(state, n);
            let top = state.mean_of(best);
            &&& 0 <= best < n
            &&& score.level(top)
            &&& count == examples_of(state, best)
            &&& forall|i: int| 0 <= i < n ==> top.at_least(#[trigger] state.mean_of(i))
            &&& forall|i: int|
                0 <= i < n && (#[trigger] state.mean_of(i)).level(top) ==> examples_of(state, i)
                    <= examples_of(state, best)
            &&& forall|i: int|
                0 <= i < best && (#[trigger] state.mean_of(i)).level(top) ==> examples_of(state, i)
                    < examples_of(state, best)
        }),
    decreases n,
{
    assert(!state.mean_of(n - 1).nan());
    if n > 1 {
        lemma_best(state, n - 1);
        assert(!state.mean_of(best_program(state, n - 1).0).nan());
    } else {
        let m = state.mean_of(0);
        assert(best_program(state, 0) == (0int, lowest(), 0nat));
        assert(m.at_least(lowest()));
    }
}

/// A probability is a number from zero to one.
pub proof fn probabilities_are_from_zero_to_one(epsilon: Score)
    ensures
        is_probability(epsilon) <==> epsilon.bits <= 0x3ff0_0000_0000_0000 || epsilon.bits
            == SIGN_BIT,
        one_score().bits == 0x3ff0_0000_0000_0000,
{
}

/// Where the point that is drawn lies below the probability, the drawn candidate
/// is chosen; else the first of those with the best mean score.
pub proof fn below_the_probability_chance_decides<Id: DataId, A: ScoreArithmetic>(
    selector: EpsilonGreedySelector<A>,
    state: GEPAState<Id>,
    draw: Score,
    drawn: usize,
)
    requires
        0 < state.program_candidates@.len() <= usize::MAX,
        forall|i: int|
            0 <= i < state.program_candidates@.len() ==> !(#[trigger] state.mean_scores()[i]).nan(),
    ensures
        ({
            let chosen = selector.decided(state, draw, drawn);
            let scores = state.mean_scores();
            &&& selector.probability().above(draw) ==> chosen == drawn
            &&& !selector.probability().above(draw) ==> {
                &&& chosen < scores.len()
                &&& forall|i: int|
                    0 <= i < scores.len() ==> scores[chosen as int].at_least(#[trigger] scores[i])
                &&& forall|i: int|
                    0 <= i < chosen ==> scores[chosen as int].above(#[trigger] scores[i])
            }
        }),
{
    best_place_is_first_maximum(state.mean_scores(), state.mean_scores().len() as int);
}

/// The narrowed fronts have just those of the programs that are kept, and no
/// front without one.
pub proof fn narrowed_fronts_have_those_kept<K>(
    frontier: Map<K, Set<usize>>,
    keep: Set<usize>,
    k: K,
    p: usize,
)
    ensures
        narrowed(frontier, keep).dom().contains(k) && narrowed(frontier, keep)[k].contains(p)
            <==> frontier.dom().contains(k) && frontier[k].contains(p) && keep.contains(p),
        narrowed(frontier, keep).dom().contains(k) ==> exists|q: usize| #[trigger]
            narrowed(frontier, keep)[k].contains(q),
{
    if narrowed(frontier, keep).dom().contains(k) {
        let q = choose|q: usize| #[trigger] frontier[k].contains(q) && keep.contains(q);
        assert(narrowed(frontier, keep)[k].contains(q));
    }
    if frontier.dom().contains(k) && frontier[k].contains(p) && keep.contains(p) {
        assert(frontier[k].contains(p) && keep.contains(p));
    }
}

/// The first of an order by strength outscore the rest: none that comes later has
/// a higher score than one that comes before.
pub proof fn the_strongest_come_first(order: Seq<usize>, scores: Seq<Score>, i: int, j: int)
    requires
        strongest_order(order, scores),
        forall|q: int| 0 <= q < scores.len() ==> !(#[trigger] scores[q]).nan(),
        0 <= i <= j < order.len(),
    ensures
        order[i] < scores.len(),
        order[j] < scores.len(),
        scores[order[i] as int].at_least(scores[order[j] as int]),
        i < j && scores[order[i] as int].level(scores[order[j] as int]) ==> order[i] < order[j],
        order.to_set() == Set::new(|p: usize| p < scores.len()),
{
    assert(order.contains(order[i]));
    assert(order.contains(order[j]));
    assert(!scores[order[i] as int].nan());
    assert(!scores[order[j] as int].nan());
    if i < j {
        let a = order[i];
        let b = order[j];
        assert(scores[a as int].above(scores[b as int]) || (scores[a as int].level(
            scores[b as int],
        ) && a < b));
    }
    assert(order.to_set() =~= Set::new(|p: usize| p < scores.len()));
}

/// A program is dominated just where it is on a front, and each front that it is
/// on has one of the pool.
pub proof fn dominated_programs_are_matched_on_every_front(
    y: usize,
    pool: Set<usize>,
    sets: Seq<Set<usize>>,
)
    ensures
        dominated(y, pool, sets) <==> (exists|k: int|
            0 <= k < sets.len() && (#[trigger] sets[k]).contains(y)) && forall|k: int|
            0 <= k < sets.len() && (#[trigger] sets[k]).contains(y) ==> !sets[k].disjoint(pool),
{
    assert forall|k: int| 0 <= k < sets.len() implies covered(#[trigger] sets[k], pool)
        == !sets[k].disjoint(pool) by {
        if covered(sets[k], pool) {
            let other = choose|other: usize| #[trigger]
                sets[k].contains(other) && pool.contains(other);
            assert(sets[k].contains(other) && pool.contains(other));
        }
        if !sets[k].disjoint(pool) {
            let other = choose|other: usize| sets[k].contains(other) && pool.contains(other);
            assert(sets[k].contains(other) && pool.contains(other));
        }
    }
    if dominated(y, pool, sets) {
        let k = choose|k: int| 0 <= k < sets.len() && (#[trigger] sets[k]).contains(y);
        assert(sets[k].contains(y));
    }
}

/// Programs are tried in the order of their scores, and those with the same score
/// in the order of their indices.
pub proof fn the_weakest_are_tried_first(scores: Seq<Score>, p: usize, q: usize)
    requires
        p < scores.len(),
        q < scores.len(),
        !scores[p as int].nan(),
        !scores[q as int].nan(),
    ensures
        scores[q as int].above(scores[p as int]) ==> tried_before(Some(scores), p, q)
            && !tried_before(Some(scores), q, p),
        scores[p as int].level(scores[q as int]) ==> (tried_before(Some(scores), p, q) <==> p < q),
{
}

/// The number of fronts that a program is on.
pub proof fn coverage_counts_the_fronts(sets: Seq<Set<usize>>, p: usize, n: int)
    requires
        0 <= n <= sets.len(),
    ensures
        coverage(sets, p, n) == sets.take(n).filter(|s: Set<usize>| s.contains(p)).len(),
        coverage(sets, p, n) <= n,
        coverage(sets, p, n) > 0 <==> on_some_front(sets.take(n), p),
    decreases n,
{
    let f = |s: Set<usize>| s.contains(p);
    reveal(Seq::filter);
    if n > 0 {
        coverage_counts_the_fronts(sets, p, n - 1);
        let before = sets.take(n - 1);
        let now = sets.take(n);
        assert(now.drop_last() =~= before);
        assert(now.last() == sets[n - 1]);
        if on_some_front(before, p) {
            let k = choose|k: int| 0 <= k < before.len() && (#[trigger] before[k]).contains(p);
            assert(now[k].contains(p));
        }
        if on_some_front(now, p) {
            let k = choose|k: int| 0 <= k < now.len() && (#[trigger] now[k]).contains(p);
            if k < n - 1 {
                assert(before[k].contains(p));
            }
        }
        if sets[n - 1].contains(p) {
            assert(now[n - 1].contains(p));
        }
    }
}

/// What is sampled from names a program just where it is left and on some front.
pub proof fn only_those_left_are_sampled(
    list: Seq<usize>,
    sets: Seq<Set<usize>>,
    left: Set<usize>,
    p: usize,
)
    requires
        weighted_survivors(list, sets, left),
    ensures
        list.contains(p) <==> left.contains(p) && on_some_front(sets, p),
{
    list.to_multiset_ensures();
    coverage_counts_the_fronts(sets, p, sets.len() as int);
    assert(sets.take(sets.len() as int) =~= sets);
    assert(list.to_multiset().count(p) > 0 <==> list.contains(p));
}

/// Of the programs that are left, every front that has a program has one; and
/// each has a front on which no other of them is.
pub proof fn those_left_cover_every_front<K>(
    list: Seq<usize>,
    frontier: Map<K, Set<usize>>,
    scores: Seq<Score>,
)
    requires
        non_dominated(list, frontier, scores),
    ensures
        list.no_duplicates(),
        forall|k: K, p: usize|
            frontier.dom().contains(k) && #[trigger] frontier[k].contains(p) ==> exists|q: usize|
                #[trigger] list.contains(q) && frontier[k].contains(q),
        forall|p: usize| #[trigger]
            list.contains(p) ==> exists|k: K| #[trigger]
                frontier.dom().contains(k) && frontier[k].contains(p) && forall|q: usize|
                    list.contains(q) && #[trigger] frontier[k].contains(q) ==> q == p,
{
    let (keys, sets, order) = choose|keys: Seq<K>, sets: Seq<Set<usize>>, order: Seq<usize>|
        {
            &&& #[trigger] lists_fronts(keys, sets, frontier)
            &&& #[trigger] elimination_order(order, sets, Some(scores))
            &&& list.to_set() == final_survivors(order, sets)
        };
    let n = order.len() as int;
    let left = final_survivors(order, sets);
    assert forall|q: usize| left.contains(q) <==> list.contains(q) by {
        assert(list.to_set().contains(q) <==> list.contains(q));
    }
    assert forall|k: K, p: usize|
        frontier.dom().contains(k) && #[trigger] frontier[k].contains(p) implies exists|q: usize|
        #[trigger] list.contains(q) && frontier[k].contains(q) by {
        assert(keys.contains(k));
        let i = choose|i: int| 0 <= i < keys.len() && keys[i] == k;
        assert(sets[i] == frontier[keys[i]]);
        assert(sets[i].contains(p));
        fronts_keep_a_survivor(order, sets, n, i);
        let q = choose|q: usize| #[trigger] sets[i].contains(q) && left.contains(q);
        assert(list.contains(q) && frontier[k].contains(q));
    }
    assert forall|p: usize| #[trigger] list.contains(p) implies exists|k: K| #[trigger]
        frontier.dom().contains(k) && frontier[k].contains(p) && forall|q: usize|
            list.contains(q) && #[trigger] frontier[k].contains(q) ==> q == p by {
        assert(left.contains(p));
        lemma_survivors_within(order, sets, n);
        assert(order.to_set().contains(p));
        assert(order.contains(p));
        let at = choose|at: int| 0 <= at < order.len() && order[at] == p;
        survivors_are_undominated(order, sets, n, at);
        assert(on_some_front(sets, p));
        let i = choose|i: int|
            0 <= i < sets.len() && (#[trigger] sets[i]).contains(p) && !covered(
                sets[i],
                left.remove(p),
            );
        let k = keys[i];
        assert(keys.contains(k));
        assert(sets[i] == frontier[keys[i]]);
        assert forall|q: usize| list.contains(q) && #[trigger] frontier[k].contains(q) implies q
            == p by {
            if q != p {
                assert(left.contains(q));
                assert(sets[i].contains(q) && left.remove(p).contains(q));
            }
        }
        assert(frontier.dom().contains(k) && frontier[k].contains(p));
    }
}

/// A candidate that is chosen of the `k` best is one of `k` that no other
/// outscores.
pub proof fn a_choice_of_the_best_is_one_of_them<Id: DataId>(
    selector: TopKParetoCandidateSelector,
    after: TopKParetoCandidateSelector,
    state: GEPAState<Id>,
    order: Seq<usize>,
    chosen: usize,
)
    requires
        selector.chose(after, state, order, Ok(chosen)),
        selector.pool() > 0,
        state.program_candidates@.len() > 0,
        state.program_candidates@.len() <= usize::MAX,
        forall|q: int|
            0 <= q < state.mean_scores().len() ==> !(#[trigger] state.mean_scores()[q]).nan(),
    ensures
        exists|best: Set<usize>|
            {
                &&& #[trigger] best.contains(chosen)
                &&& best.finite()
                &&& best.len() <= selector.pool()
                &&& forall|p: usize, q: usize|
                    best.contains(p) && q < state.mean_scores().len() && !best.contains(q)
                        ==> !(#[trigger] state.mean_scores()[q as int]).above(
                        #[trigger] state.mean_scores()[p as int],
                    )
            },
{
    let scores = state.mean_scores();
    let n = order.len();
    let k = if selector.pool() <= n {
        selector.pool() as int
    } else {
        n as int
    };
    let top = order.take(k);
    let best = top.to_set();
    let left = narrowed(state.frontier(), best);
    assert(top.no_duplicates());
    top.unique_seq_to_set();
    assert(best.len() <= selector.pool());
    assert forall|p: usize, q: usize|
        best.contains(p) && q < scores.len() && !best.contains(q) implies !(
    #[trigger] scores[q as int]).above(#[trigger] scores[p as int]) by {
        let i = choose|i: int| 0 <= i < top.len() && top[i] == p;
        assert(order[i] == p);
        assert(order.contains(q));
        let j = choose|j: int| 0 <= j < order.len() && order[j] == q;
        if j < k {
            assert(top[j] == q);
            assert(best.contains(q));
        }
        the_strongest_come_first(order, scores, i, j);
    }
    if left.dom() =~= Set::empty() {
        best_place_is_first_maximum(scores, scores.len() as int);
        assert(chosen < scores.len());
        assert(order.contains(chosen));
        let c = choose|c: int| 0 <= c < order.len() && order[c] == chosen;
        let first = order[0];
        assert(order.contains(first));
        the_strongest_come_first(order, scores, 0, c);
        assert(scores[chosen as int].at_least(scores[first as int]));
        if c > 0 {
            assert(first < chosen);
            assert(scores[chosen as int].above(scores[first as int]));
        }
        assert(top[0] == chosen);
        assert(best.contains(chosen));
    } else {
        let list = choose|list: Seq<usize>| #[trigger]
            sampled_from(list, left, scores) && drawn_from(
                list,
                selector.generator(),
                after.generator(),
                Ok(chosen),
            );
        assert(list.len() > 0);
        let at = choose|at: int| 0 <= at < list.len() && list[at] == chosen;
        sampled_programs_survive(list, left, scores, at);
        survivor_is_on_the_frontier(chosen, left, scores);
        let key = choose|key| left.dom().contains(key) && (#[trigger] left[key]).contains(chosen);
        assert(best.contains(chosen));
    }
}

proof fn lemma_coverage_by_keys<K>(
    frontier: Map<K, Set<usize>>,
    keys: Seq<K>,
    sets: Seq<Set<usize>>,
    p: usize,
    n: int,
)
    requires
        lists_fronts(keys, sets, frontier),
        0 <= n <= sets.len(),
    ensures
        coverage(sets, p, n) == count_keys(keys, |k: K| frontier[k].contains(p), n),
    decreases n,
{
    if n > 0 {
        lemma_coverage_by_keys(frontier, keys, sets, p, n - 1);
        assert(sets[n - 1] == frontier[keys[n - 1]]);
    }
}

/// A program that is sampled from at all is named once for each front that it is
/// on; and of every front that has a program, one is sampled from.
pub proof fn chances_go_by_the_number_of_fronts<K>(
    list: Seq<usize>,
    frontier: Map<K, Set<usize>>,
    scores: Seq<Score>,
)
    requires
        sampled_from(list, frontier, scores),
    ensures
        forall|p: usize|
            list.contains(p) ==> #[trigger] list.to_multiset().count(p) == frontier.dom().filter(
                |k: K| frontier[k].contains(p),
            ).len(),
        forall|k: K, p: usize|
            frontier.dom().contains(k) && #[trigger] frontier[k].contains(p) ==> exists|q: usize|
                #[trigger] list.contains(q) && frontier[k].contains(q),
        forall|p: usize| #[trigger]
            list.contains(p) ==> exists|k: K| #[trigger]
                frontier.dom().contains(k) && frontier[k].contains(p),
        forall|i: int, j: int| 0 <= i < j < list.len() ==> list[i] <= list[j],
{
    let (keys, sets, order) = choose|keys: Seq<K>, sets: Seq<Set<usize>>, order: Seq<usize>|
        {
            &&& #[trigger] lists_fronts(keys, sets, frontier)
            &&& #[trigger] elimination_order(order, sets, Some(scores))
            &&& weighted_survivors(list, sets, final_survivors(order, sets))
        };
    let n = order.len() as int;
    let left = final_survivors(order, sets);
    list.to_multiset_ensures();
    assert(keys.to_set() =~= frontier.dom()) by {
        assert forall|k: K| keys.to_set().contains(k) == frontier.dom().contains(k) by {
            assert(keys.contains(k) <==> frontier.dom().contains(k));
        }
    }
    assert forall|p: usize| list.contains(p) implies #[trigger] list.to_multiset().count(p)
        == frontier.dom().filter(|k: K| frontier[k].contains(p)).len() by {
        let f = |k: K| frontier[k].contains(p);
        lemma_coverage_by_keys(frontier, keys, sets, p, sets.len() as int);
        counting_gives_the_size(keys, f);
        only_those_left_are_sampled(list, sets, left, p);
    }
    assert forall|k: K, p: usize|
        frontier.dom().contains(k) && #[trigger] frontier[k].contains(p) implies exists|q: usize|
        #[trigger] list.contains(q) && frontier[k].contains(q) by {
        assert(keys.contains(k));
        let i = choose|i: int| 0 <= i < keys.len() && keys[i] == k;
        assert(sets[i] == frontier[keys[i]]);
        assert(sets[i].contains(p));
        fronts_keep_a_survivor(order, sets, n, i);
        let q = choose|q: usize| #[trigger] sets[i].contains(q) && left.contains(q);
        only_those_left_are_sampled(list, sets, left, q);
        assert(on_some_front(sets, q));
        assert(list.contains(q) && frontier[k].contains(q));
    }
    assert forall|p: usize| #[trigger] list.contains(p) implies exists|k: K| #[trigger]
        frontier.dom().contains(k) && frontier[k].contains(p) by {
        only_those_left_are_sampled(list, sets, left, p);
        let i = choose|i: int| 0 <= i < sets.len() && (#[trigger] sets[i]).contains(p);
        assert(keys.contains(keys[i]));
        assert(sets[i] == frontier[keys[i]]);
        assert(frontier.dom().contains(keys[i]) && frontier[keys[i]].contains(p));
    }
}

/// A choice from fronts without a program fails; any other gives a program that
/// is on a front.
pub proof fn only_empty_fronts_give_no_choice<K>(
    frontier: Map<K, Set<usize>>,
    scores: Seq<Score>,
    rng: StdRng,
    after: StdRng,
    r: Result<usize>,
)
    requires
        selected(frontier, scores, rng, after, r),
    ensures
        r is Err <==> forall|k: K, p: usize|
            frontier.dom().contains(k) ==> !(#[trigger] frontier[k].contains(p)),
        r matches Err(e) ==> e is EmptyFrontier,
        r matches Ok(p) ==> exists|k: K| #[trigger]
            frontier.dom().contains(k) && frontier[k].contains(p),
        r is Err ==> after == rng,
{
    let list = choose|list: Seq<usize>| #[trigger]
        sampled_from(list, frontier, scores) && drawn_from(list, rng, after, r);
    chances_go_by_the_number_of_fronts(list, frontier, scores);
    if list.len() > 0 {
        let p = r->Ok_0;
        assert(list.contains(p));
        let k = choose|k: K| #[trigger] frontier.dom().contains(k) && frontier[k].contains(p);
        assert(frontier[k].contains(p));
    } else {
        assert forall|k: K, p: usize| frontier.dom().contains(k) implies !(
        #[trigger] frontier[k].contains(p)) by {
            if frontier[k].contains(p) {
                let q = choose|q: usize| #[trigger] list.contains(q) && frontier[k].contains(q);
                assert(false);
            }
        }
    }
}

/// The selector of the best gives the first of those with the best mean score, and
/// fails only where there is no candidate.
pub proof fn the_current_best_is_chosen<Id: DataId>(
    selector: CurrentBestSelector,
    state: GEPAState<Id>,
    r: Result<usize>,
)
    requires
        selector.may_give(state, r),
        state.program_candidates@.len() <= usize::MAX,
        forall|i: int|
            0 <= i < state.program_candidates@.len() ==> !(#[trigger] state.mean_scores()[i]).nan(),
    ensures
        r is Err <==> state.program_candidates@.len() == 0,
        r matches Ok(p) ==> {
            let scores = state.mean_scores();
            &&& p < scores.len()
            &&& forall|i: int|
                0 <= i < scores.len() ==> scores[p as int].at_least(#[trigger] scores[i])
            &&& forall|i: int| 0 <= i < p ==> scores[p as int].above(#[trigger] scores[i])
        },
{
    if state.program_candidates@.len() > 0 {
        best_place_is_first_maximum(state.mean_scores(), state.mean_scores().len() as int);
    }
}

/// The policy judges the best program: none has a higher mean score, and none with
/// as high a mean score was scored on more examples.
pub proof fn the_best_is_judged_best<Id: DataId>(
    policy: FullEvalPolicy,
    state: GEPAState<Id>,
    r: Result<usize>,
)
    requires
        policy.may_judge(state, r),
        state.aligned(),
        forall|i: int|
            0 <= i < state.program_candidates@.len() ==> !(#[trigger] state.mean_of(i)).nan(),
    ensures
        r is Err <==> state.program_candidates@.len() == 0,
        r matches Ok(p) ==> {
            &&& p < state.program_candidates@.len()
            &&& forall|i: int|
                0 <= i < state.program_candidates@.len() ==> state.mean_of(p as int).at_least(
                    #[trigger] state.mean_of(i),
                )
            &&& forall|i: int|
                0 <= i < state.program_candidates@.len() && (#[trigger] state.mean_of(i)).level(
                    state.mean_of(p as int),
                ) ==> examples_of(state, i) <= examples_of(state, p as int)
        },
{
    if state.program_candidates@.len() > 0 {
        the_best_program_is_first_of_the_best(state, state.program_candidates@.len() as int);
    }
}

/// Without scores programs are tried in the order of their indices; a program
/// without a score counts as one with the score 1.
pub proof fn without_scores_the_index_decides(scores: Seq<Score>, p: usize, q: usize)
    ensures
        tried_before(None, p, q) <==> p < q,
        p < scores.len() ==> rank_score(Some(scores), p) == scores[p as int],
        p >= scores.len() ==> rank_score(Some(scores), p).bits == 0x3ff0_0000_0000_0000,
{
}

/// Restricting fronts to the survivors takes programs away and adds none, and
/// leaves no front without a program that had one.
pub proof fn restricted_fronts_keep_a_program<K: MapKey>(
    before: KeyMap<K, HashSet<usize>>,
    after: KeyMap<K, HashSet<usize>>,
    order: Seq<usize>,
    scores: Option<Seq<Score>>,
    k: int,
)
    requires
        elimination_order(order, fronts(before), scores),
        restricted(before, after, order),
        0 <= k < fronts(before).len(),
    ensures
        after.key_seq() == before.key_seq(),
        fronts(after)[k].subset_of(fronts(before)[k]),
        (exists|p: usize| fronts(before)[k].contains(p)) ==> exists|p: usize|
            fronts(after)[k].contains(p),
{
    let sets = fronts(before);
    if exists|p: usize| sets[k].contains(p) {
        fronts_keep_a_survivor(order, sets, order.len() as int, k);
        let p = choose|p: usize| #[trigger]
            sets[k].contains(p) && final_survivors(order, sets).contains(p);
        assert(fronts(after)[k].contains(p));
    }
}

/// The component whose turn it is comes where the counter of the candidate points;
/// the next turn is that of the next component, or of the first after the last; and
/// other candidates keep their counters.
pub proof fn the_next_component_has_the_next_turn<Id: DataId>(
    before: GEPAState<Id>,
    after: GEPAState<Id>,
    i: usize,
    other: int,
    name: Seq<char>,
)
    requires
        took_turn(before, after, i, name),
        i < before.named_predictor_id_to_update_next@.len(),
        before.named_predictor_id_to_update_next@[i as int] < before.list_of_named_predictors@.len(),
        before.list_of_named_predictors@.len() <= usize::MAX,
        0 <= other < before.named_predictor_id_to_update_next@.len(),
        other != i,
    ensures
        ({
            let turn = before.named_predictor_id_to_update_next@[i as int] as int;
            let next = after.named_predictor_id_to_update_next@[i as int] as int;
            &&& name == before.list_of_named_predictors@[turn]@
            &&& turn + 1 < before.list_of_named_predictors@.len() ==> next == turn + 1
            &&& turn + 1 == before.list_of_named_predictors@.len() ==> next == 0
            &&& after.named_predictor_id_to_update_next@[other]
                == before.named_predictor_id_to_update_next@[other]
        }),
{
    let n = before.list_of_named_predictors@.len();
    let turn = before.named_predictor_id_to_update_next@[i as int] as nat;
    vstd::arithmetic::div_mod::lemma_small_mod(turn, n);
    if turn + 1 < n {
        vstd::arithmetic::div_mod::lemma_small_mod(turn + 1, n);
    } else {
        vstd::arithmetic::div_mod::lemma_mod_self_0(n as int);
    }
}

/// Where all components are updated, they are named in their order.
pub proof fn all_components_are_named_in_order<Id: DataId>(
    selector: AllComponentSelector,
    before: GEPAState<Id>,
    after: GEPAState<Id>,
    trajectories: Seq<Value>,
    scores: Seq<Score>,
    candidate: usize,
    entries: Seq<(Seq<char>, Seq<char>)>,
    names: Vec<String>,
    k: int,
)
    requires
        selector.may_give(before, after, trajectories, scores, candidate, entries, Ok(names)),
        0 <= k < entries.len(),
    ensures
        names@.len() == entries.len(),
        names@[k]@ == entries[k].0,
        after == before,
{
    let views = text_views(names@);
    assert(views.len() == component_names(entries).len());
    assert(views[k] == component_names(entries)[k]);
}

} // verus!
