//! Every front holds the best of the candidates' own scores.
use serde_json::Value;
use vstd::prelude::*;

use crate::keyed::KeyMap;
use crate::optimizer::adapter::ObjectiveScores;
use crate::optimizer::data_loader::DataId;
use crate::optimizer::evaluation::ValsetEvaluation;
use crate::optimizer::frontier::{FrontierKeyView, FrontierType};
use crate::optimizer::fronts::{
    all_finite, flat_scores, front_exact, joined, raised, raised_front_is_exact,
    seed_front_is_exact, sets_view,
};
use crate::optimizer::state::{best_outputs_after, greatest_counter, GEPAState};
use crate::score::Score;

verus! {

/// The flattened scores have just the pairs of an example and an objective that
/// the example's row has, and for each what the row has under the objective.
pub proof fn flattened_scores_are_those_of_the_rows<Id: DataId>(
    rows: KeyMap<Id, ObjectiveScores>,
    id: Id::V,
    name: Seq<char>,
)
    ensures
        flat_scores(rows).dom().contains((id, name)) <==> rows@.dom().contains(id)
            && rows@[id]@.dom().contains(name),
        flat_scores(rows).dom().contains((id, name)) ==> flat_scores(rows)[(id, name)]
            == rows@[id]@[name],
{
}

/// The scores of a candidate by example and objective, as its results have them.
pub open spec fn own_pairs<Id: DataId>(evaluation: ValsetEvaluation<Id>) -> Map<
    (Id::V, Seq<char>),
    Score,
> {
    Map::new(
        |k: (Id::V, Seq<char>)|
            evaluation.objective_scores_by_val_id matches Some(rows) && rows@.dom().contains(k.0)
                && rows@[k.0]@.dom().contains(k.1),
        |k: (Id::V, Seq<char>)| evaluation.objective_scores_by_val_id->0@[k.0]@[k.1],
    )
}

/// Whether the front has a score for just the keys that some candidate was scored
/// on, the score is that of one of them and at least that of each, and the set
/// has just those that reach it.
pub open spec fn best_of_all<K>(
    subs: Seq<Map<K, Score>>,
    front: Map<K, Score>,
    sets: Map<K, Set<usize>>,
) -> bool {
    &&& forall|k: K| #[trigger] sets.dom().contains(k) <==> front.dom().contains(k)
    &&& forall|i: int, k: K|
        0 <= i < subs.len() && #[trigger] subs[i].dom().contains(k) ==> front.dom().contains(k)
            && front[k].at_least(subs[i][k])
    &&& forall|k: K| #[trigger]
        front.dom().contains(k) ==> exists|i: int|
            0 <= i < subs.len() && #[trigger] subs[i].dom().contains(k) && subs[i][k] == front[k]
    &&& forall|k: K, p: usize|
        front.dom().contains(k) ==> (#[trigger] sets[k].contains(p) <==> p < subs.len()
            && subs[p as int].dom().contains(k) && subs[p as int][k].level(front[k]))
}

/// One candidate alone is the best of all.
pub proof fn one_candidate_is_the_best<K>(seed: Map<K, Score>, sets: Map<K, Set<usize>>)
    requires
        all_finite(seed),
        sets.dom() == seed.dom(),
        forall|k: K| #[trigger] seed.dom().contains(k) ==> sets[k] == Set::<usize>::empty().insert(0),
    ensures
        best_of_all(seq![seed], seed, sets),
{
    let subs = seq![seed];
    seed_front_is_exact(seed, sets);
    assert(subs[0] == seed);
    assert forall|k: K| #[trigger] seed.dom().contains(k) implies exists|i: int|
        0 <= i < subs.len() && #[trigger] subs[i].dom().contains(k) && subs[i][k] == seed[k] by {
        assert(subs[0].dom().contains(k));
    }
    assert forall|i: int, k: K|
        0 <= i < subs.len() && #[trigger] subs[i].dom().contains(k) implies seed.dom().contains(k)
        && seed[k].at_least(subs[i][k]) by {}
}

/// With one more candidate, the raised front is the best of all of them.
pub proof fn one_more_candidate_keeps_the_best<K>(
    subs: Seq<Map<K, Score>>,
    front: Map<K, Score>,
    sets: Map<K, Set<usize>>,
    new: Map<K, Score>,
    p: usize,
)
    requires
        best_of_all(subs, front, sets),
        subs.len() == p,
        all_finite(new),
    ensures
        best_of_all(subs.push(new), raised(front, new), joined(front, sets, new, p)),
{
    let more = subs.push(new);
    let front1 = raised(front, new);
    assert(front_exact(subs, front, sets)) by {
        assert forall|k: K| #[trigger] front.dom().contains(k) <==> exists|i: int|
            0 <= i < subs.len() && (#[trigger] subs[i]).dom().contains(k) by {
            if front.dom().contains(k) {
                let i = choose|i: int|
                    0 <= i < subs.len() && #[trigger] subs[i].dom().contains(k) && subs[i][k]
                        == front[k];
                assert(subs[i].dom().contains(k));
            }
        }
    }
    raised_front_is_exact(subs, front, sets, new, p);
    assert forall|i: int, k: K|
        0 <= i < more.len() && #[trigger] more[i].dom().contains(k) implies front1.dom().contains(k)
        && front1[k].at_least(more[i][k]) by {
        assert(exists|j: int| 0 <= j < more.len() && (#[trigger] more[j]).dom().contains(k));
    }
    assert forall|k: K| #[trigger] front1.dom().contains(k) implies exists|i: int|
        0 <= i < more.len() && #[trigger] more[i].dom().contains(k) && more[i][k] == front1[k] by {
        if front.dom().contains(k) && front1[k] == front[k] {
            let i = choose|i: int|
                0 <= i < subs.len() && #[trigger] subs[i].dom().contains(k) && subs[i][k]
                    == front[k];
            assert(more[i].dom().contains(k));
        } else {
            assert(more[subs.len() as int].dom().contains(k));
        }
    }
}

/// The fronts of a new state are those of the seed: on the examples, on the
/// objectives and, where the fronts are on pairs of both, on the pairs.
pub proof fn new_fronts_are_the_best<Id: DataId>(
    state: GEPAState<Id>,
    entries: Seq<(Seq<char>, Seq<char>)>,
    evaluation: ValsetEvaluation<Id>,
    frontier_type: FrontierType,
    track_best_outputs: bool,
)
    requires
        state.seeded_by(entries, evaluation, frontier_type, track_best_outputs),
        all_finite(evaluation.scores_by_val_id@),
        all_finite(evaluation.mean_objectives@),
        all_finite(own_pairs(evaluation)),
    ensures
        best_of_all(
            seq![evaluation.scores_by_val_id@],
            state.pareto_front_valset@,
            sets_view(state.program_at_pareto_front_valset),
        ),
        best_of_all(
            seq![evaluation.mean_objectives@],
            state.objective_pareto_front@,
            sets_view(state.program_at_pareto_front_objectives),
        ),
        frontier_type is Cartesian ==> best_of_all(
            seq![own_pairs(evaluation)],
            state.pareto_front_cartesian@,
            sets_view(state.program_at_pareto_front_cartesian),
        ),
        frontier_type !is Cartesian ==> state.pareto_front_cartesian@ == Map::<
            (Id::V, Seq<char>),
            Score,
        >::empty() && sets_view(state.program_at_pareto_front_cartesian).dom() == Set::<
            (Id::V, Seq<char>),
        >::empty(),
{
    one_candidate_is_the_best(
        evaluation.scores_by_val_id@,
        sets_view(state.program_at_pareto_front_valset),
    );
    one_candidate_is_the_best(
        evaluation.mean_objectives@,
        sets_view(state.program_at_pareto_front_objectives),
    );
    if frontier_type is Cartesian {
        assert(state.pareto_front_cartesian@ =~= own_pairs(evaluation));
        one_candidate_is_the_best(
            own_pairs(evaluation),
            sets_view(state.program_at_pareto_front_cartesian),
        );
    } else {
        assert(state.pareto_front_cartesian@ =~= Map::empty());
        assert(sets_view(state.program_at_pareto_front_cartesian).dom() =~= Set::empty());
    }
}

/// Adding a candidate keeps the fronts the best of all candidates: `history` has
/// the results of the candidates of `before`, in order.
pub proof fn added_candidate_keeps_the_fronts_best<Id: DataId>(
    history: Seq<ValsetEvaluation<Id>>,
    before: GEPAState<Id>,
    after: GEPAState<Id>,
    parents: Seq<usize>,
    entries: Seq<(Seq<char>, Seq<char>)>,
    evaluation: ValsetEvaluation<Id>,
    calls: usize,
)
    requires
        after.extended(before, parents, entries, evaluation, calls),
        history.len() == before.program_candidates@.len(),
        best_of_all(
            Seq::new(history.len(), |i: int| history[i].scores_by_val_id@),
            before.pareto_front_valset@,
            sets_view(before.program_at_pareto_front_valset),
        ),
        best_of_all(
            Seq::new(history.len(), |i: int| history[i].mean_objectives@),
            before.objective_pareto_front@,
            sets_view(before.program_at_pareto_front_objectives),
        ),
        before.frontier_type is Cartesian ==> best_of_all(
            Seq::new(history.len(), |i: int| own_pairs(history[i])),
            before.pareto_front_cartesian@,
            sets_view(before.program_at_pareto_front_cartesian),
        ),
        all_finite(evaluation.scores_by_val_id@),
        all_finite(evaluation.mean_objectives@),
        all_finite(own_pairs(evaluation)),
    ensures
        ({
            let more = history.push(evaluation);
            &&& best_of_all(
                Seq::new(more.len(), |i: int| more[i].scores_by_val_id@),
                after.pareto_front_valset@,
                sets_view(after.program_at_pareto_front_valset),
            )
            &&& best_of_all(
                Seq::new(more.len(), |i: int| more[i].mean_objectives@),
                after.objective_pareto_front@,
                sets_view(after.program_at_pareto_front_objectives),
            )
            &&& after.frontier_type == before.frontier_type
            &&& before.frontier_type is Cartesian ==> best_of_all(
                Seq::new(more.len(), |i: int| own_pairs(more[i])),
                after.pareto_front_cartesian@,
                sets_view(after.program_at_pareto_front_cartesian),
            )
        }),
{
    let more = history.push(evaluation);
    let p = before.program_candidates.len();
    let s0 = Seq::new(history.len(), |i: int| history[i].scores_by_val_id@);
    let s1 = Seq::new(more.len(), |i: int| more[i].scores_by_val_id@);
    assert(s1 =~= s0.push(evaluation.scores_by_val_id@));
    one_more_candidate_keeps_the_best(
        s0,
        before.pareto_front_valset@,
        sets_view(before.program_at_pareto_front_valset),
        evaluation.scores_by_val_id@,
        p,
    );
    let o0 = Seq::new(history.len(), |i: int| history[i].mean_objectives@);
    let o1 = Seq::new(more.len(), |i: int| more[i].mean_objectives@);
    assert(o1 =~= o0.push(evaluation.mean_objectives@));
    one_more_candidate_keeps_the_best(
        o0,
        before.objective_pareto_front@,
        sets_view(before.program_at_pareto_front_objectives),
        evaluation.mean_objectives@,
        p,
    );
    if before.frontier_type is Cartesian {
        let c0 = Seq::new(history.len(), |i: int| own_pairs(history[i]));
        let c1 = Seq::new(more.len(), |i: int| own_pairs(more[i]));
        assert(c1 =~= c0.push(own_pairs(evaluation)));
        assert(crate::optimizer::state::cartesian_seed(evaluation, before.frontier_type)
            =~= own_pairs(evaluation));
        one_more_candidate_keeps_the_best(
            c0,
            before.pareto_front_cartesian@,
            sets_view(before.program_at_pareto_front_cartesian),
            own_pairs(evaluation),
            p,
        );
    }
}

/// The fronts that candidates are selected from: on the examples where the type
/// asks for these, on the objectives where it asks for those, on pairs where it
/// asks for pairs, and on nothing else.
pub proof fn frontier_is_what_its_type_asks_for<Id: DataId>(
    state: GEPAState<Id>,
    id: Id::V,
    name: Seq<char>,
)
    ensures
        ({
            let t = state.frontier_type;
            let all = state.frontier();
            let on_example = FrontierKeyView::Instance { val_id: id };
            let on_objective = FrontierKeyView::<Id::V>::Objective { name };
            let on_pair = FrontierKeyView::Cartesian { val_id: id, objective: name };
            let examples = sets_view(state.program_at_pareto_front_valset);
            let objectives = sets_view(state.program_at_pareto_front_objectives);
            let pairs = sets_view(state.program_at_pareto_front_cartesian);
            &&& all.dom().contains(on_example) <==> (t is Instance || t is Hybrid)
                && examples.dom().contains(id)
            &&& all.dom().contains(on_example) ==> all[on_example] == examples[id]
            &&& all.dom().contains(on_objective) <==> (t is Objective || t is Hybrid)
                && objectives.dom().contains(name)
            &&& all.dom().contains(on_objective) ==> all[on_objective] == objectives[name]
            &&& all.dom().contains(on_pair) <==> t is Cartesian && pairs.dom().contains((id, name))
            &&& all.dom().contains(on_pair) ==> all[on_pair] == pairs[(id, name)]
        }),
{
}

/// The output that is kept for an example stays that of a candidate that reaches
/// the best score on it, and is the output that the candidate gave.
pub proof fn kept_outputs_are_of_the_best<K>(
    best: Map<K, (usize, Value)>,
    front: Map<K, Score>,
    sets: Map<K, Set<usize>>,
    scores: Map<K, Score>,
    outputs: Map<K, Value>,
    p: usize,
)
    requires
        all_finite(scores),
        forall|k: K| #[trigger] front.dom().contains(k) ==> !front[k].nan(),
        forall|k: K| #[trigger] best.dom().contains(k) <==> front.dom().contains(k),
        forall|k: K| #[trigger] sets.dom().contains(k) <==> front.dom().contains(k),
        forall|k: K| #[trigger] best.dom().contains(k) ==> sets[k].contains(best[k].0),
        forall|k: K| #[trigger] scores.dom().contains(k) ==> outputs.dom().contains(k),
    ensures
        ({
            let after = best_outputs_after(best, front, scores, outputs, p);
            let front1 = raised(front, scores);
            let sets1 = joined(front, sets, scores, p);
            &&& forall|k: K| #[trigger] after.dom().contains(k) <==> front1.dom().contains(k)
            &&& forall|k: K| #[trigger]
                after.dom().contains(k) ==> sets1[k].contains(after[k].0)
            &&& forall|k: K| #[trigger]
                after.dom().contains(k) ==> after[k] == (p, outputs[k]) || (best.dom().contains(k)
                    && after[k] == best[k])
        }),
{
    let after = best_outputs_after(best, front, scores, outputs, p);
    let front1 = raised(front, scores);
    let sets1 = joined(front, sets, scores, p);
    assert forall|k: K| #[trigger] after.dom().contains(k) <==> front1.dom().contains(k) by {
        assert(best.dom().contains(k) <==> front.dom().contains(k));
        if scores.dom().contains(k) {
            assert(scores[k].finite());
        }
    }
    assert forall|k: K| #[trigger] after.dom().contains(k) implies sets1[k].contains(
        after[k].0,
    ) by {
        assert(best.dom().contains(k) <==> front.dom().contains(k));
        assert(sets.dom().contains(k) <==> front.dom().contains(k));
        if scores.dom().contains(k) {
            assert(scores[k].finite());
        }
    }
}

/// The counter of a new candidate is at least each parent's, and is that of one
/// of them, or 0 where there are none.
pub proof fn counter_is_the_greatest_of_the_parents(counters: Seq<usize>, parents: Seq<usize>)
    ensures
        forall|i: int|
            0 <= i < parents.len() ==> greatest_counter(counters, parents, parents.len() as int)
                >= counters[#[trigger] parents[i] as int],
        greatest_counter(counters, parents, parents.len() as int) == 0 || exists|i: int|
            0 <= i < parents.len() && counters[#[trigger] parents[i] as int] == greatest_counter(
                counters,
                parents,
                parents.len() as int,
            ),
{
    lemma_counter(counters, parents, parents.len() as int);
}

proof fn lemma_counter(counters: Seq<usize>, parents: Seq<usize>, n: int)
    requires
        0 <= n <= parents.len(),
    ensures
        forall|i: int|
            0 <= i < n ==> greatest_counter(counters, parents, n)
                >= counters[#[trigger] parents[i] as int],
        greatest_counter(counters, parents, n) == 0 || exists|i: int|
            0 <= i < n && counters[#[trigger] parents[i] as int] == greatest_counter(
                counters,
                parents,
                n,
            ),
    decreases n,
{
    if n > 0 {
        lemma_counter(counters, parents, n - 1);
        let c = counters[parents[n - 1] as int];
        let g0 = greatest_counter(counters, parents, n - 1);
        if c > g0 {
            assert(counters[parents[n - 1] as int] == greatest_counter(counters, parents, n));
        } else if g0 != 0 {
            let i = choose|i: int|
                0 <= i < n - 1 && counters[#[trigger] parents[i] as int] == g0;
            assert(counters[parents[i] as int] == greatest_counter(counters, parents, n));
        }
    }
}

/// What a score does to a front, whatever the scores are: a higher one takes its
/// place and the program stands alone; an equal one leaves it and the program
/// joins; any other changes nothing.
pub proof fn how_a_front_takes_a_score<K>(
    front: Map<K, Score>,
    sets: Map<K, Set<usize>>,
    new: Map<K, Score>,
    p: usize,
    k: K,
)
    requires
        sets.dom() == front.dom(),
    ensures
        ({
            let front1 = raised(front, new);
            let sets1 = joined(front, sets, new, p);
            &&& front.dom().contains(k) ==> front1.dom().contains(k) && sets1.dom().contains(k)
            &&& front.dom().contains(k) && !new.dom().contains(k) ==> front1[k] == front[k]
                && sets1[k] == sets[k]
            &&& front.dom().contains(k) && new.dom().contains(k) ==> {
                &&& new[k].above(front[k]) ==> front1[k] == new[k] && sets1[k] == set![p]
                &&& new[k].level(front[k]) ==> front1[k] == front[k] && sets1[k] == sets[k].insert(
                    p,
                )
                &&& !new[k].at_least(front[k]) ==> front1[k] == front[k] && sets1[k] == sets[k]
            }
            &&& !front.dom().contains(k) && !new.dom().contains(k) ==> !front1.dom().contains(k)
                && !sets1.dom().contains(k)
            &&& !front.dom().contains(k) && new.dom().contains(k) && new[k].finite()
                ==> front1.dom().contains(k) && front1[k] == new[k] && sets1[k] == set![p]
            &&& !front.dom().contains(k) && new.dom().contains(k) && new[k].nan()
                ==> !front1.dom().contains(k) && !sets1.dom().contains(k)
        }),
{
}

/// An output that is kept gives way only to that of a candidate with a higher
/// score.
pub proof fn only_a_higher_score_replaces_an_output<K>(
    best: Map<K, (usize, Value)>,
    front: Map<K, Score>,
    scores: Map<K, Score>,
    outputs: Map<K, Value>,
    p: usize,
    k: K,
)
    requires
        best.dom().contains(k),
        front.dom().contains(k),
    ensures
        ({
            let after = best_outputs_after(best, front, scores, outputs, p);
            &&& after.dom().contains(k)
            &&& scores.dom().contains(k) && scores[k].above(front[k]) && outputs.dom().contains(k)
                ==> after[k] == (p, outputs[k])
            &&& !(scores.dom().contains(k) && scores[k].above(front[k])) ==> after[k] == best[k]
        }),
{
}

/// Whether two states have the same fronts over as many candidates.
pub open spec fn same_fronts<Id: DataId>(a: GEPAState<Id>, b: GEPAState<Id>) -> bool {
    &&& a.program_candidates@.len() == b.program_candidates@.len()
    &&& a.frontier_type == b.frontier_type
    &&& a.pareto_front_valset@ == b.pareto_front_valset@
    &&& sets_view(a.program_at_pareto_front_valset) == sets_view(b.program_at_pareto_front_valset)
    &&& a.objective_pareto_front@ == b.objective_pareto_front@
    &&& sets_view(a.program_at_pareto_front_objectives) == sets_view(
        b.program_at_pareto_front_objectives,
    )
    &&& a.pareto_front_cartesian@ == b.pareto_front_cartesian@
    &&& sets_view(a.program_at_pareto_front_cartesian) == sets_view(
        b.program_at_pareto_front_cartesian,
    )
}

/// However many candidates a run adds, the fronts hold the best of all of them:
/// for each example the greatest of the candidates' scores on it, for each
/// objective the greatest of their means, and, where the fronts are on pairs, for
/// each example and objective the greatest of their own scores for that objective
/// on that example; and just the candidates that reach it. The first of `results`
/// are those of the seed; `after[k]` is the state once candidate `k` was added to
/// `before[k]`, and between two candidates the fronts stay as they are.
pub proof fn fronts_of_a_run_hold_the_best<Id: DataId>(
    results: Seq<ValsetEvaluation<Id>>,
    before: Seq<GEPAState<Id>>,
    after: Seq<GEPAState<Id>>,
    parents: Seq<Seq<usize>>,
    entries: Seq<Seq<(Seq<char>, Seq<char>)>>,
    calls: Seq<usize>,
    frontier_type: FrontierType,
    track_best_outputs: bool,
    n: int,
)
    requires
        1 <= n <= results.len(),
        after[0].seeded_by(entries[0], results[0], frontier_type, track_best_outputs),
        forall|k: int| #![trigger after[k]]
            1 <= k < n ==> after[k].extended(
                before[k],
                parents[k],
                entries[k],
                results[k],
                calls[k],
            ) && same_fronts(after[k - 1], before[k]),
        forall|k: int| #![trigger results[k]]
            0 <= k < n ==> all_finite(results[k].scores_by_val_id@) && all_finite(
                results[k].mean_objectives@,
            ) && all_finite(own_pairs(results[k])),
    ensures
        ({
            let last = after[n - 1];
            &&& last.program_candidates@.len() == n
            &&& last.frontier_type == frontier_type
            &&& best_of_all(
                Seq::new(n as nat, |i: int| results[i].scores_by_val_id@),
                last.pareto_front_valset@,
                sets_view(last.program_at_pareto_front_valset),
            )
            &&& best_of_all(
                Seq::new(n as nat, |i: int| results[i].mean_objectives@),
                last.objective_pareto_front@,
                sets_view(last.program_at_pareto_front_objectives),
            )
            &&& frontier_type is Cartesian ==> best_of_all(
                Seq::new(n as nat, |i: int| own_pairs(results[i])),
                last.pareto_front_cartesian@,
                sets_view(last.program_at_pareto_front_cartesian),
            )
        }),
    decreases n,
{
    assert(all_finite(results[n - 1].scores_by_val_id@));
    let scores = Seq::new(n as nat, |i: int| results[i].scores_by_val_id@);
    let means = Seq::new(n as nat, |i: int| results[i].mean_objectives@);
    let pairs = Seq::new(n as nat, |i: int| own_pairs(results[i]));
    if n == 1 {
        new_fronts_are_the_best(
            after[0],
            entries[0],
            results[0],
            frontier_type,
            track_best_outputs,
        );
        assert(scores =~= seq![results[0].scores_by_val_id@]);
        assert(means =~= seq![results[0].mean_objectives@]);
        assert(pairs =~= seq![own_pairs(results[0])]);
        assert(after[0].candidates_view().len() == 1);
    } else {
        fronts_of_a_run_hold_the_best(
            results,
            before,
            after,
            parents,
            entries,
            calls,
            frontier_type,
            track_best_outputs,
            n - 1,
        );
        let old_state = before[n - 1];
        let new_state = after[n - 1];
        assert(same_fronts(after[n - 2], old_state)) by {
            assert(after[n - 1].extended(
                before[n - 1],
                parents[n - 1],
                entries[n - 1],
                results[n - 1],
                calls[n - 1],
            ));
        }
        let history = results.take(n - 1);
        assert(Seq::new(history.len(), |i: int| history[i].scores_by_val_id@) =~= Seq::new(
            (n - 1) as nat,
            |i: int| results[i].scores_by_val_id@,
        ));
        assert(Seq::new(history.len(), |i: int| history[i].mean_objectives@) =~= Seq::new(
            (n - 1) as nat,
            |i: int| results[i].mean_objectives@,
        ));
        assert(Seq::new(history.len(), |i: int| own_pairs(history[i])) =~= Seq::new(
            (n - 1) as nat,
            |i: int| own_pairs(results[i]),
        ));
        added_candidate_keeps_the_fronts_best(
            history,
            old_state,
            new_state,
            parents[n - 1],
            entries[n - 1],
            results[n - 1],
            calls[n - 1],
        );
        let more = history.push(results[n - 1]);
        assert(Seq::new(more.len(), |i: int| more[i].scores_by_val_id@) =~= scores);
        assert(Seq::new(more.len(), |i: int| more[i].mean_objectives@) =~= means);
        assert(Seq::new(more.len(), |i: int| own_pairs(more[i])) =~= pairs);
        assert(new_state.candidates_view().len() == old_state.candidates_view().len() + 1);
    }
}

} // verus!
