//! What a merge is made of, and what may be merged.
use rand::rngs::StdRng;
use vstd::prelude::*;

use crate::keyed::{views, KeyMap};
use crate::laws::candidates::text_stands_beside_the_name;
use crate::optimizer::adapter::{
    candidate_entries, distinct_names, text_or_empty, Candidate,
};
use crate::optimizer::data_loader::DataId;
use crate::optimizer::state::{GEPAState, StepKind};
use crate::proposer::merge::{
    allowed_picks, count_keys, desirable, drawable, entries_of, is_ancestor, is_parent,
    merge_can_fail, merged_entries, mergeable, overlap_enough, reached, running_sums,
    shared_count, some_pair_is_barren, AncestorLog, OverlapRule,
};
use crate::proposer::merge_draws::{
    ancestor_drawn, drawn_picks, in_order, merge_drawn, merge_search, pair_attempt, pair_outcome,
    pair_search, weighted_pick, MergePool, MergeView,
};
use crate::proposer::merge_proposer::{MergePlan, MergeProposer, MERGE_ATTEMPTS};
use crate::proposer::subsample::{
    balanced, first_better, least, left_over, positions, second_better, share, shared, tied,
};
use crate::random::chosen_some;
use crate::score::{Score, ScoreArithmetic};
use crate::utils::pareto::{non_dominated, non_dominated_are_on_the_frontier};

verus! {

/// The ancestor of a merge outscores neither of the two that are merged; both
/// descend from it, neither from the other; and the three were not tried.
pub proof fn ancestor_outscores_neither_child(
    parents: Seq<Vec<Option<usize>>>,
    programs: Seq<usize>,
    tried: Seq<AncestorLog>,
    scores: Seq<Score>,
    candidates: Seq<Candidate>,
    i: usize,
    j: usize,
    a: usize,
)
    requires
        mergeable(parents, programs, tried, scores, candidates, i, j, a),
    ensures
        !scores[a as int].above(scores[i as int]),
        !scores[a as int].above(scores[j as int]),
        !tried.contains((i, j, a)),
        programs.contains(i),
        programs.contains(j),
        programs.no_duplicates() ==> i < j,
        is_ancestor(parents, i, a),
        is_ancestor(parents, j, a),
        !is_ancestor(parents, i, j),
        !is_ancestor(parents, j, i),
        desirable(
            candidate_entries(candidates[a as int]),
            candidate_entries(candidates[i as int]),
            candidate_entries(candidates[j as int]),
        ),
{
}

/// The ancestor of a merge that is prepared has a mean score above that of
/// neither parent, and both parents are on the frontier.
pub proof fn prepared_ancestor_outscores_neither_parent<Id: DataId>(
    before: MergeProposer,
    after: MergeProposer,
    state: GEPAState<Id>,
    plan: MergePlan<Id>,
)
    requires
        before.prepared(after, state, Some(plan)),
    ensures
        !state.mean_scores()[plan.ancestor as int].above(state.mean_scores()[plan.id1 as int]),
        !state.mean_scores()[plan.ancestor as int].above(state.mean_scores()[plan.id2 as int]),
        !before.merges_performed.0@.contains((plan.id1, plan.id2, plan.ancestor)),
        after.merges_performed.0@.contains((plan.id1, plan.id2, plan.ancestor)),
        is_ancestor(state.parent_program_for_candidate@, plan.id1, plan.ancestor),
        is_ancestor(state.parent_program_for_candidate@, plan.id2, plan.ancestor),
        shared_count(
            state.prog_candidate_val_subscores@[plan.id1 as int],
            state.prog_candidate_val_subscores@[plan.id2 as int],
        ) >= before.val_overlap_floor,
        before.use_merge && before.merges_due > 0 && before.last_iter_found_new_program,
        exists|k| #[trigger]
            state.frontier().dom().contains(k) && state.frontier()[k].contains(plan.id1),
        exists|k| #[trigger]
            state.frontier().dom().contains(k) && state.frontier()[k].contains(plan.id2),
{
    let programs = choose|programs: Seq<usize>|
        {
            &&& #[trigger] non_dominated(programs, state.frontier(), state.mean_scores())
            &&& programs.contains(plan.id1)
            &&& programs.contains(plan.id2)
        };
    non_dominated_are_on_the_frontier(programs, state.frontier(), state.mean_scores(), plan.id1);
    non_dominated_are_on_the_frontier(programs, state.frontier(), state.mean_scores(), plan.id2);
    let log = after.merges_performed.0@;
    assert(log[log.len() - 1] == (plan.id1, plan.id2, plan.ancestor));
}

/// The parents of a program are what the list of its parents names.
pub proof fn parents_are_those_listed(parents: Seq<Vec<Option<usize>>>, node: usize, a: usize)
    ensures
        is_parent(parents, node, a) <==> node < parents.len()
            && parents[node as int]@.contains(Some(a)),
{
}

proof fn lemma_reached_on(
    parents: Seq<Vec<Option<usize>>>,
    node: usize,
    b: usize,
    a: usize,
    m: nat,
    n: nat,
)
    requires
        reached(parents, node, b, m),
        reached(parents, b, a, n),
    ensures
        reached(parents, node, a, m + n),
    decreases m,
{
    if is_parent(parents, node, b) {
        lemma_more_steps(parents, b, a, n, (m + n - 1) as nat);
        assert(is_parent(parents, node, b) && reached(parents, b, a, (m + n - 1) as nat));
    } else {
        let q = choose|q: usize| #[trigger] is_parent(parents, node, q) && reached(
            parents,
            q,
            b,
            (m - 1) as nat,
        );
        lemma_reached_on(parents, q, b, a, (m - 1) as nat, n);
        assert((m - 1) as nat + n == (m + n - 1) as nat);
        assert(is_parent(parents, node, q) && reached(parents, q, a, (m + n - 1) as nat));
    }
}

proof fn lemma_more_steps(
    parents: Seq<Vec<Option<usize>>>,
    node: usize,
    a: usize,
    m: nat,
    n: nat,
)
    requires
        reached(parents, node, a, m),
        m <= n,
    ensures
        reached(parents, node, a, n),
    decreases m,
{
    if !is_parent(parents, node, a) {
        let q = choose|q: usize| #[trigger] is_parent(parents, node, q) && reached(
            parents,
            q,
            a,
            (m - 1) as nat,
        );
        lemma_more_steps(parents, q, a, (m - 1) as nat, (n - 1) as nat);
        assert(is_parent(parents, node, q) && reached(parents, q, a, (n - 1) as nat));
    }
}

/// A parent is an ancestor.
pub proof fn parents_are_ancestors(parents: Seq<Vec<Option<usize>>>, node: usize, a: usize)
    requires
        node < parents.len(),
        parents[node as int]@.contains(Some(a)),
    ensures
        is_ancestor(parents, node, a),
{
    assert(is_parent(parents, node, a));
    assert(reached(parents, node, a, 1));
}

/// An ancestor of an ancestor is an ancestor.
pub proof fn ancestors_of_ancestors_are_ancestors(
    parents: Seq<Vec<Option<usize>>>,
    node: usize,
    b: usize,
    a: usize,
)
    requires
        is_ancestor(parents, node, b),
        is_ancestor(parents, b, a),
    ensures
        is_ancestor(parents, node, a),
{
    let m = choose|m: nat| reached(parents, node, b, m);
    let n = choose|n: nat| reached(parents, b, a, n);
    lemma_reached_on(parents, node, b, a, m, n);
}

/// Nothing else is an ancestor: a set that has the parents of the program, and
/// with each program in it that program's parents, has all the ancestors.
pub proof fn only_parents_lead_to_ancestors(
    parents: Seq<Vec<Option<usize>>>,
    node: usize,
    set: Set<usize>,
    a: usize,
)
    requires
        is_ancestor(parents, node, a),
        forall|n: usize, p: usize|
            (n == node || set.contains(n)) && n < parents.len()
                && #[trigger] parents[n as int]@.contains(Some(p)) ==> set.contains(p),
    ensures
        set.contains(a),
{
    let n = choose|n: nat| reached(parents, node, a, n);
    lemma_in_closed(parents, node, set, a, n);
}

proof fn lemma_in_closed(
    parents: Seq<Vec<Option<usize>>>,
    node: usize,
    set: Set<usize>,
    a: usize,
    steps: nat,
)
    requires
        reached(parents, node, a, steps),
        forall|n: usize, p: usize|
            (n == node || set.contains(n)) && n < parents.len()
                && #[trigger] parents[n as int]@.contains(Some(p)) ==> set.contains(p),
    ensures
        set.contains(a),
    decreases steps,
{
    if is_parent(parents, node, a) {
        assert(parents[node as int]@.contains(Some(a)));
    } else {
        let q = choose|q: usize| #[trigger] is_parent(parents, node, q) && reached(
            parents,
            q,
            a,
            (steps - 1) as nat,
        );
        assert(parents[node as int]@.contains(Some(q)));
        lemma_in_closed(parents, q, set, a, (steps - 1) as nat);
    }
}

/// Where parents come before their children, so do all ancestors.
pub proof fn ancestors_come_before(parents: Seq<Vec<Option<usize>>>, node: usize, a: usize)
    requires
        is_ancestor(parents, node, a),
        forall|n: usize, p: usize|
            n < parents.len() && #[trigger] parents[n as int]@.contains(Some(p)) ==> p < n,
    ensures
        a < node,
{
    only_parents_lead_to_ancestors(parents, node, Set::new(|p: usize| p < node), a);
}

/// A merge is worth making just where some component of the ancestor was kept by
/// one of the two and not by the other.
pub proof fn one_kept_what_the_other_changed(
    anc: Seq<(Seq<char>, Seq<char>)>,
    e1: Seq<(Seq<char>, Seq<char>)>,
    e2: Seq<(Seq<char>, Seq<char>)>,
)
    requires
        distinct_names(anc),
    ensures
        desirable(anc, e1, e2) <==> exists|k: int|
            0 <= k < anc.len() && (text_or_empty(e1, (#[trigger] anc[k]).0) == anc[k].1) != (
            text_or_empty(e2, anc[k].0) == anc[k].1),
{
    assert forall|k: int| 0 <= k < anc.len() implies text_or_empty(anc, (#[trigger] anc[k]).0)
        == anc[k].1 by {
        text_stands_beside_the_name(anc, k);
    }
    if desirable(anc, e1, e2) {
        let k = choose|k: int|
            0 <= k < anc.len() && crate::proposer::merge::one_changed(
                text_or_empty(anc, (#[trigger] anc[k]).0),
                text_or_empty(e1, anc[k].0),
                text_or_empty(e2, anc[k].0),
            );
        assert((text_or_empty(e1, anc[k].0) == anc[k].1) != (text_or_empty(e2, anc[k].0)
            == anc[k].1));
    }
}

/// A merge has the ancestor's components, each with the text of one of the two;
/// where just one of them changed it, with the change; where neither did, with
/// the ancestor's.
pub proof fn merge_has_the_texts_of_the_two(
    anc: Seq<(Seq<char>, Seq<char>)>,
    e1: Seq<(Seq<char>, Seq<char>)>,
    e2: Seq<(Seq<char>, Seq<char>)>,
    s1: Score,
    s2: Score,
    id1: usize,
    id2: usize,
    picks: Seq<usize>,
    k: int,
)
    requires
        distinct_names(anc),
        allowed_picks(anc, e1, e2, s1, s2, id1, id2, picks),
        0 <= k < anc.len(),
        id1 != id2,
    ensures
        ({
            let merged = merged_entries(anc, e1, e2, id1, picks);
            let t1 = text_or_empty(e1, anc[k].0);
            let t2 = text_or_empty(e2, anc[k].0);
            let t0 = anc[k].1;
            &&& merged.len() == anc.len()
            &&& merged[k].0 == anc[k].0
            &&& picks[k] == id1 && merged[k].1 == t1 || picks[k] == id2 && merged[k].1 == t2
            &&& t1 == t0 && t2 == t0 ==> merged[k].1 == t0
            &&& t1 != t0 && t2 == t0 ==> merged[k].1 == t1
            &&& t1 == t0 && t2 != t0 ==> merged[k].1 == t2
            &&& t1 != t0 && t2 != t0 && s1.above(s2) ==> merged[k].1 == t1
            &&& t1 != t0 && t2 != t0 && s2.above(s1) ==> merged[k].1 == t2
        }),
{
    text_stands_beside_the_name(anc, k);
    let p = picks[k];
    assert(p == id1 || p == id2);
}

proof fn lemma_count_is_size<K>(keys: Seq<K>, f: spec_fn(K) -> bool, n: int)
    requires
        keys.no_duplicates(),
        0 <= n <= keys.len(),
    ensures
        keys.take(n).to_set().filter(f).finite(),
        count_keys(keys, f, n) == keys.take(n).to_set().filter(f).len(),
    decreases n,
{
    let now = keys.take(n).to_set().filter(f);
    if n == 0 {
        assert(now =~= Set::empty());
    } else {
        lemma_count_is_size(keys, f, n - 1);
        let before = keys.take(n - 1).to_set().filter(f);
        let k = keys[n - 1];
        let part = keys.take(n - 1);
        assert(keys.take(n) =~= keys.take(n - 1).push(k));
        assert(keys.take(n).to_set() =~= keys.take(n - 1).to_set().insert(k)) by {
            assert forall|x: K| keys.take(n).contains(x) <==> keys.take(n - 1).contains(x) || x
                == k by {
                if keys.take(n - 1).contains(x) {
                    let i = choose|i: int| 0 <= i < n - 1 && part[i] == x;
                    assert(keys.take(n)[i] == x);
                }
                if x == k {
                    assert(keys.take(n)[n - 1] == x);
                }
            }
        }
        assert(!keys.take(n - 1).contains(k)) by {
            if keys.take(n - 1).contains(k) {
                let i = choose|i: int| 0 <= i < n - 1 && part[i] == k;
                assert(keys[i] == keys[n - 1]);
            }
        }
        if f(k) {
            assert(now =~= before.insert(k));
        } else {
            assert(now =~= before);
        }
    }
}

/// Counting keys gives the size of the set of those that satisfy the condition.
pub proof fn counting_gives_the_size<K>(keys: Seq<K>, f: spec_fn(K) -> bool)
    requires
        keys.no_duplicates(),
    ensures
        keys.to_set().filter(f).finite(),
        count_keys(keys, f, keys.len() as int) == keys.to_set().filter(f).len(),
{
    lemma_count_is_size(keys, f, keys.len() as int);
    assert(keys.take(keys.len() as int) =~= keys);
}

/// Two programs share as many examples as both were scored on.
pub proof fn shared_examples_are_in_both<Id: DataId>(a: KeyMap<Id, Score>, b: KeyMap<Id, Score>)
    requires
        a.wf(),
    ensures
        shared_count(a, b) == a@.dom().intersect(b@.dom()).len(),
{
    let f = |k: Id::V| b@.dom().contains(k);
    counting_gives_the_size(a.key_seq(), f);
    a.lemma_size();
    assert(a.key_seq().to_set().filter(f) =~= a@.dom().intersect(b@.dom()));
}

/// The share of each group is a third, rounded up, and at least one.
pub proof fn share_is_a_third(n: int)
    requires
        n >= 0,
    ensures
        share(n) >= 1,
        3 * share(n) >= n,
        n > 0 ==> 3 * (share(n) - 1) < n,
{
}

/// The least of three is one of them and above none.
pub proof fn least_is_above_none(x: int, y: int, z: int)
    ensures
        least(x, y, z) <= x && least(x, y, z) <= y && least(x, y, z) <= z,
        least(x, y, z) == x || least(x, y, z) == y || least(x, y, z) == z,
{
}

/// The smaller of two.
pub open spec fn smaller(x: int, y: int) -> int {
    if x < y {
        x
    } else {
        y
    }
}

/// A balanced choice has as many of the shared examples as asked for, or all of
/// them; and it has a third of each kind, or all of the kind, as far as the
/// number goes: first those that the first program does better on, then those
/// that the second does better on, then those that neither does.
pub proof fn balanced_choice_has_some_of_each<K>(
    ids: Seq<K>,
    keys: Seq<K>,
    a: Map<K, Score>,
    b: Map<K, Score>,
    n: nat,
)
    requires
        keys.no_duplicates(),
        keys.to_set() == a.dom(),
        balanced(ids, keys, a, b, n),
    ensures
        ({
            let both = a.dom().intersect(b.dom());
            let first = both.filter(|k: K| a[k].above(b[k]));
            let second = both.filter(|k: K| b[k].above(a[k]));
            let ties = both.filter(|k: K| a[k].level(b[k]));
            let third = share(n as int);
            let t1 = smaller(smaller(first.len() as int, third), n as int);
            let t2 = smaller(smaller(second.len() as int, third), n - t1);
            let t3 = smaller(smaller(ties.len() as int, third), n - t1 - t2);
            &&& ids.no_duplicates()
            &&& ids.to_set().subset_of(both)
            &&& ids.len() == smaller(n as int, both.len() as int)
            &&& forall|i: int| 0 <= i < t1 ==> first.contains(#[trigger] ids[i])
            &&& forall|i: int| t1 <= i < t1 + t2 ==> second.contains(#[trigger] ids[i])
            &&& forall|i: int| t1 + t2 <= i < t1 + t2 + t3 ==> ties.contains(#[trigger] ids[i])
            &&& t1 + t2 + t3 <= ids.len()
        }),
{
    let both = a.dom().intersect(b.dom());
    let first = both.filter(|k: K| a[k].above(b[k]));
    let second = both.filter(|k: K| b[k].above(a[k]));
    let ties = both.filter(|k: K| a[k].level(b[k]));
    let f1 = |k: K| first_better(a, b, k);
    let f2 = |k: K| second_better(a, b, k);
    let f3 = |k: K| tied(a, b, k);
    let f4 = |k: K| shared(a, b, k);
    counting_gives_the_size(keys, f1);
    counting_gives_the_size(keys, f2);
    counting_gives_the_size(keys, f3);
    counting_gives_the_size(keys, f4);
    assert(keys.to_set().filter(f1) =~= first);
    assert(keys.to_set().filter(f2) =~= second);
    assert(keys.to_set().filter(f3) =~= ties);
    assert(keys.to_set().filter(f4) =~= both);
    let third = share(n as int);
    let t1 = smaller(smaller(first.len() as int, third), n as int);
    let t2 = smaller(smaller(second.len() as int, third), n - t1);
    let t3 = smaller(smaller(ties.len() as int, third), n - t1 - t2);
    assert forall|k: K| #[trigger] ids.to_set().contains(k) implies both.contains(k) by {
        let i = choose|i: int| 0 <= i < ids.len() && ids[i] == k;
        assert(shared(a, b, ids[i]));
    }
    if t3 > 0 {
        assert(tied(a, b, ids[t1 + t2 + t3 - 1]));
    } else if t2 > 0 {
        assert(second_better(a, b, ids[t1 + t2 - 1]));
    } else if t1 > 0 {
        assert(first_better(a, b, ids[t1 - 1]));
    }
}

/// The positions of the keys that satisfy a condition are those and no others,
/// in ascending order.
pub proof fn positions_are_of_those_that_satisfy<K>(
    keys: Seq<K>,
    f: spec_fn(K) -> bool,
    n: int,
)
    requires
        0 <= n <= keys.len() <= usize::MAX,
    ensures
        forall|p: usize| #[trigger]
            positions(keys, f, n).contains(p) <==> p < n && f(keys[p as int]),
        forall|i: int, j: int|
            0 <= i < j < positions(keys, f, n).len() ==> #[trigger] positions(keys, f, n)[i]
                < #[trigger] positions(keys, f, n)[j],
    decreases n,
{
    if n > 0 {
        positions_are_of_those_that_satisfy(keys, f, n - 1);
        let before = positions(keys, f, n - 1);
        let now = positions(keys, f, n);
        let last = (n - 1) as usize;
        if f(keys[n - 1]) {
            assert(now == before.push(last));
            assert forall|p: usize| #[trigger] now.contains(p) <==> p < n && f(keys[p as int]) by {
                if now.contains(p) {
                    let i = choose|i: int| 0 <= i < now.len() && now[i] == p;
                    if i < before.len() {
                        assert(before[i] == p);
                        assert(before.contains(p));
                    }
                }
                if p < n && f(keys[p as int]) {
                    if p == last {
                        assert(now[before.len() as int] == p);
                    } else {
                        assert(before.contains(p));
                        let i = choose|i: int| 0 <= i < before.len() && before[i] == p;
                        assert(now[i] == p);
                    }
                }
            }
            assert forall|i: int, j: int| 0 <= i < j < now.len() implies #[trigger] now[i]
                < #[trigger] now[j] by {
                assert(before.contains(before[i]));
            }
        }
    }
}

/// What is left over is what was not selected.
pub proof fn what_is_left_was_not_selected(list: Seq<usize>, selected: Seq<usize>, n: int)
    requires
        0 <= n <= list.len(),
    ensures
        forall|p: usize| #[trigger]
            left_over(list, selected, n).contains(p) <==> list.take(n).contains(p)
                && !selected.contains(p),
    decreases n,
{
    if n > 0 {
        what_is_left_was_not_selected(list, selected, n - 1);
        let before = left_over(list, selected, n - 1);
        let now = left_over(list, selected, n);
        let last = list[n - 1];
        let part = list.take(n - 1);
        assert forall|p: usize| #[trigger] now.contains(p) <==> list.take(n).contains(p)
            && !selected.contains(p) by {
            if now.contains(p) {
                if before.contains(p) {
                    let i = choose|i: int| 0 <= i < n - 1 && part[i] == p;
                    assert(list.take(n)[i] == p);
                } else {
                    let i = choose|i: int| 0 <= i < now.len() && now[i] == p;
                    assert(p == last) by {
                        if i < before.len() {
                            assert(before[i] == p);
                        }
                    }
                    assert(list.take(n)[n - 1] == p);
                }
            }
            if list.take(n).contains(p) && !selected.contains(p) {
                let i = choose|i: int| 0 <= i < n && list.take(n)[i] == p;
                if i < n - 1 {
                    assert(list.take(n - 1)[i] == p);
                    assert(before.contains(p));
                    let q = choose|q: int| 0 <= q < before.len() && before[q] == p;
                    assert(now[q] == p);
                } else {
                    assert(now[before.len() as int] == p);
                }
            }
        }
    } else {
        assert(list.take(0) =~= seq![]);
    }
}

/// An accepted mutation makes one more merge due, as long as merging is on and
/// fewer merges succeeded than may; an accepted merge takes one off and counts as
/// one that succeeded. Nothing else changes.
pub proof fn merges_are_due_within_the_budget(p: MergeProposer)
    requires
        p.merges_due < usize::MAX,
        p.total_merges_tested < usize::MAX,
    ensures
        ({
            let m = p.after_accepting(StepKind::ReflectiveMutation);
            &&& m.merges_due > p.merges_due <==> p.use_merge && p.total_merges_tested
                < p.max_merge_invocations
            &&& m.merges_due == p.merges_due || m.merges_due == p.merges_due + 1
            &&& m.total_merges_tested == p.total_merges_tested
            &&& m.last_iter_found_new_program
            &&& m.merges_performed == p.merges_performed && m.rng == p.rng
        }),
        ({
            let m = p.after_accepting(StepKind::Merge);
            &&& m.total_merges_tested == p.total_merges_tested + 1
            &&& p.merges_due > 0 ==> m.merges_due + 1 == p.merges_due
            &&& p.merges_due == 0 ==> m.merges_due == 0
            &&& m.last_iter_found_new_program == p.last_iter_found_new_program
            &&& m.merges_performed == p.merges_performed && m.rng == p.rng
        }),
        !p.use_merge ==> !p.due() && !p.after_accepting(StepKind::ReflectiveMutation).due(),
{
}

/// The examples of a plan are shared by both parents, and the scores of the plan
/// are the parents' own on them.
pub proof fn plan_has_the_parents_scores<Id: DataId>(
    plan: MergePlan<Id>,
    state: GEPAState<Id>,
    i: int,
)
    requires
        plan.fits(state),
        0 <= i < plan.subsample_ids@.len(),
    ensures
        ({
            let a = state.prog_candidate_val_subscores@[plan.id1 as int]@;
            let b = state.prog_candidate_val_subscores@[plan.id2 as int]@;
            let id = plan.subsample_ids@[i]@;
            &&& a.dom().contains(id) && b.dom().contains(id)
            &&& plan.scores1@.len() == plan.subsample_ids@.len()
            &&& plan.scores2@.len() == plan.subsample_ids@.len()
            &&& plan.scores1@[i] == a[id]
            &&& plan.scores2@[i] == b[id]
        }),
{
    let ids = views(plan.subsample_ids@);
    assert(ids[i] == plan.subsample_ids@[i]@);
    assert(shared(
        state.prog_candidate_val_subscores@[plan.id1 as int]@,
        state.prog_candidate_val_subscores@[plan.id2 as int]@,
        ids[i],
    ));
}

/// Of two programs the one with the smaller index comes first.
pub proof fn the_smaller_index_comes_first(p: usize, q: usize)
    ensures
        in_order(p, q).0 <= in_order(p, q).1,
        in_order(p, q) == (p, q) || in_order(p, q) == (q, p),
{
}

/// Which of the two each component is taken from: the one that changed it where
/// the other did not, the first where neither did, and where both did the one that
/// scores higher.
pub proof fn components_are_drawn_from_the_one_that_changed_them(
    anc: Seq<(Seq<char>, Seq<char>)>,
    e1: Seq<(Seq<char>, Seq<char>)>,
    e2: Seq<(Seq<char>, Seq<char>)>,
    s1: Score,
    s2: Score,
    id1: usize,
    id2: usize,
    rng: StdRng,
    n: int,
    k: int,
)
    requires
        distinct_names(anc),
        0 <= k < n <= anc.len(),
    ensures
        ({
            let picks = drawn_picks(anc, e1, e2, s1, s2, id1, id2, rng, n).0;
            let t0 = anc[k].1;
            let t1 = text_or_empty(e1, anc[k].0);
            let t2 = text_or_empty(e2, anc[k].0);
            &&& picks.len() == n
            &&& t1 != t0 && t2 == t0 ==> picks[k] == id1
            &&& t1 == t0 && t2 != t0 ==> picks[k] == id2
            &&& t1 == t0 && t2 == t0 ==> picks[k] == id1
            &&& t1 != t0 && t2 != t0 && s1.above(s2) ==> picks[k] == id1
            &&& t1 != t0 && t2 != t0 && s2.above(s1) ==> picks[k] == id2
        }),
    decreases n,
{
    text_stands_beside_the_name(anc, k);
    if k < n - 1 {
        components_are_drawn_from_the_one_that_changed_them(
            anc,
            e1,
            e2,
            s1,
            s2,
            id1,
            id2,
            rng,
            n - 1,
            k,
        );
    } else if n > 1 {
        components_are_drawn_from_the_one_that_changed_them(
            anc,
            e1,
            e2,
            s1,
            s2,
            id1,
            id2,
            rng,
            n - 1,
            0,
        );
    } else {
        assert(drawn_picks(anc, e1, e2, s1, s2, id1, id2, rng, 0).0.len() == 0);
    }
}

/// The ancestor that is picked by weight is the first at which the sum of the
/// scores, added up in the order of the list from zero on, reaches the point; the
/// first of all where it never does.
pub proof fn the_ancestor_is_where_the_sum_reaches_the_point<A: ScoreArithmetic>(
    arith: A,
    list: Seq<usize>,
    scores: Seq<Score>,
    point: Score,
    chosen: usize,
)
    requires
        list.len() > 0,
        weighted_pick(arith, list, scores, point, chosen),
    ensures
        list.contains(chosen),
        exists|sums: Seq<Score>, c: int|
            {
                &&& 0 <= c < list.len()
                &&& #[trigger] list[c] == chosen
                &&& #[trigger] sums[0] == Score { bits: 0 }
                &&& forall|k: int|
                    0 <= k < sums.len() - 1 ==> call_ensures(
                        A::plus,
                        (&arith, #[trigger] sums[k], scores[list[k] as int]),
                        sums[k + 1],
                    )
                &&& {
                    ||| sums.len() == c + 2 && sums[c + 1].at_least(point) && forall|q: int|
                        1 <= q <= c ==> !(#[trigger] sums[q]).at_least(point)
                    ||| c == 0 && sums.len() == list.len() + 1 && forall|q: int|
                        1 <= q <= list.len() ==> !(#[trigger] sums[q]).at_least(point)
                }
            },
{
    let sums = choose|sums: Seq<Score>|
        #[trigger] running_sums(arith, list, scores, sums) && {
            let k = sums.len() - 1;
            &&& forall|q: int| 1 <= q < k ==> !(#[trigger] sums[q]).at_least(point)
            &&& {
                ||| k > 0 && sums[k].at_least(point) && chosen == list[k - 1]
                ||| k == list.len() && !(k > 0 && sums[k].at_least(point)) && chosen == list[0]
            }
        };
    let k = sums.len() - 1;
    assert(sums[0] == Score { bits: 0 });
    if k > 0 && sums[k].at_least(point) && chosen == list[k - 1] {
        assert(list[k - 1] == chosen);
    } else {
        assert(list[0] == chosen);
    }
}

/// Where there are programs enough, where any two that may be drawn have an
/// ancestor for a merge, and where no merge gives what an earlier one gave or is of
/// programs that share too few examples, no draw for a merge can fail.
pub proof fn some_obstacle_stands_behind_a_failure<Id: DataId>(
    parents: Seq<Vec<Option<usize>>>,
    programs: Seq<usize>,
    tried: Seq<AncestorLog>,
    made: Seq<(usize, usize, Seq<usize>)>,
    scores: Seq<Score>,
    candidates: Seq<Candidate>,
    rule: Option<OverlapRule<Id>>,
)
    requires
        programs.len() >= 2,
        parents.len() >= 3,
        forall|i: usize, j: usize|
            #[trigger] drawable(programs, i, j) ==> exists|a: usize| #[trigger]
                mergeable(parents, programs, tried, scores, candidates, i, j, a),
        forall|i: usize, j: usize, picks: Seq<usize>|
            programs.contains(i) && programs.contains(j) ==> !#[trigger] made.contains(
                (i, j, picks),
            ),
        rule matches Some((subscores, floor)) ==> forall|i: int, j: int|
            shared_count(#[trigger] subscores@[i], #[trigger] subscores@[j]) >= floor,
    ensures
        !merge_can_fail(parents, programs, tried, made, scores, candidates, rule),
{
    if some_pair_is_barren(parents, programs, tried, scores, candidates) {
        let (i, j) = choose|i: usize, j: usize| #[trigger]
            drawable(programs, i, j) && forall|a: usize|
                !#[trigger] mergeable(parents, programs, tried, scores, candidates, i, j, a);
        let a = choose|a: usize| #[trigger]
            mergeable(parents, programs, tried, scores, candidates, i, j, a);
        assert(false);
    }
}

/// A search for two programs that comes to nothing has drawn, first of all, two
/// that have no ancestor for a merge.
pub proof fn a_search_fails_over_programs_without_an_ancestor<A: ScoreArithmetic>(
    pool: MergePool,
    arith: A,
    n: nat,
    rng: StdRng,
    after: StdRng,
    a: usize,
)
    requires
        n > 0,
        pair_search(pool, arith, n, rng, after, None),
    ensures
        ({
            let pair = chosen_some(rng, pool.programs, 2).0;
            let (i, j) = if pair[1] < pair[0] {
                (pair[1], pair[0])
            } else {
                (pair[0], pair[1])
            };
            !mergeable(
                pool.parents,
                pool.programs,
                pool.tried,
                pool.agg_scores,
                pool.candidates,
                i,
                j,
                a,
            )
        }),
{
    let (pair, rest) = chosen_some(rng, pool.programs, 2);
    let (i, j) = in_order(pair[0], pair[1]);
    let (mid, first) = choose|mid: StdRng, first: Option<(usize, usize, usize)>| #[trigger]
        pair_attempt(pool, arith, rng, mid, first) && match first {
            Some(_) => None::<(usize, usize, usize)> == first && after == mid,
            None => pair_search(pool, arith, (n - 1) as nat, mid, after, None),
        };
    assert(pair_outcome(pool, arith, i, j, rest, mid, None));
    let list = choose|list: Seq<usize>| #[trigger]
        pool.lists_ancestors(i, j, list) && list.len() == 0 && mid == rest;
    assert(!list.contains(a));
}

/// Two programs that a search finds have an ancestor for a merge.
pub proof fn programs_that_are_found_have_an_ancestor<A: ScoreArithmetic>(
    pool: MergePool,
    arith: A,
    n: nat,
    rng: StdRng,
    after: StdRng,
    found: (usize, usize, usize),
)
    requires
        pair_search(pool, arith, n, rng, after, Some(found)),
    ensures
        exists|b: usize| #[trigger]
            mergeable(
                pool.parents,
                pool.programs,
                pool.tried,
                pool.agg_scores,
                pool.candidates,
                found.0,
                found.1,
                b,
            ),
    decreases n,
{
    let (mid, first) = choose|mid: StdRng, first: Option<(usize, usize, usize)>| #[trigger]
        pair_attempt(pool, arith, rng, mid, first) && match first {
            Some(_) => Some(found) == first && after == mid,
            None => pair_search(pool, arith, (n - 1) as nat, mid, after, Some(found)),
        };
    match first {
        None => programs_that_are_found_have_an_ancestor(
            pool,
            arith,
            (n - 1) as nat,
            mid,
            after,
            found,
        ),
        Some(_) => {
            let (pair, rest) = chosen_some(rng, pool.programs, 2);
            let (i, j) = in_order(pair[0], pair[1]);
            let list = choose|list: Seq<usize>| #[trigger]
                pool.lists_ancestors(i, j, list) && (found.0, found.1) == (i, j) && list.len() > 0
                    && ancestor_drawn(arith, list, pool.agg_scores, rest, mid, found.2);
            assert(list.contains(list[0]));
        },
    }
}

/// A merge that is drawn gives nothing that an earlier one gave, and is of programs
/// that share enough examples.
pub proof fn a_drawn_merge_is_new<Id: DataId, A: ScoreArithmetic>(
    pool: MergePool,
    arith: A,
    made: Seq<(usize, usize, Seq<usize>)>,
    rule: Option<OverlapRule<Id>>,
    attempts: nat,
    n: nat,
    rng: StdRng,
    after: StdRng,
    merge: MergeView,
)
    requires
        merge_search(pool, arith, made, rule, attempts, n, rng, after, Some(merge)),
    ensures
        !made.contains((merge.1, merge.2, merge.4)),
        rule matches Some((subscores, floor)) ==> shared_count(
            subscores@[merge.1 as int],
            subscores@[merge.2 as int],
        ) >= floor,
        merge.4.len() == candidate_entries(pool.candidates[merge.3 as int]).len(),
        merge.0 == merged_entries(
            candidate_entries(pool.candidates[merge.3 as int]),
            candidate_entries(pool.candidates[merge.1 as int]),
            candidate_entries(pool.candidates[merge.2 as int]),
            merge.1,
            merge.4,
        ),
    decreases n,
{
    let (mid, found) = choose|mid: StdRng, found: Option<(usize, usize, usize)>| #[trigger]
        pair_search(pool, arith, attempts, rng, mid, found) && match found {
            None => None::<MergeView> == Some(merge) && after == mid,
            Some((id1, id2, ancestor)) => {
                let anc = entries_of(pool.candidates, ancestor as int);
                let e1 = entries_of(pool.candidates, id1 as int);
                let e2 = entries_of(pool.candidates, id2 as int);
                let (picks, rest) = drawn_picks(
                    anc,
                    e1,
                    e2,
                    pool.agg_scores[id1 as int],
                    pool.agg_scores[id2 as int],
                    id1,
                    id2,
                    mid,
                    anc.len() as int,
                );
                if made.contains((id1, id2, picks)) || !overlap_enough(rule, id1, id2) {
                    merge_search(
                        pool,
                        arith,
                        made,
                        rule,
                        attempts,
                        (n - 1) as nat,
                        rest,
                        after,
                        Some(merge),
                    )
                } else {
                    &&& after == rest
                    &&& Some(merge) == Some(
                        (merged_entries(anc, e1, e2, id1, picks), id1, id2, ancestor, picks),
                    )
                }
            },
        };
    let (id1, id2, ancestor) = found->0;
    let anc = entries_of(pool.candidates, ancestor as int);
    let (picks, rest) = drawn_picks(
        anc,
        entries_of(pool.candidates, id1 as int),
        entries_of(pool.candidates, id2 as int),
        pool.agg_scores[id1 as int],
        pool.agg_scores[id2 as int],
        id1,
        id2,
        mid,
        anc.len() as int,
    );
    if made.contains((id1, id2, picks)) || !overlap_enough(rule, id1, id2) {
        a_drawn_merge_is_new(
            pool,
            arith,
            made,
            rule,
            attempts,
            (n - 1) as nat,
            rest,
            after,
            merge,
        );
    } else {
        lemma_picks_len(
            anc,
            entries_of(pool.candidates, id1 as int),
            entries_of(pool.candidates, id2 as int),
            pool.agg_scores[id1 as int],
            pool.agg_scores[id2 as int],
            id1,
            id2,
            mid,
            anc.len() as int,
        );
    }
}

proof fn lemma_picks_len(
    anc: Seq<(Seq<char>, Seq<char>)>,
    e1: Seq<(Seq<char>, Seq<char>)>,
    e2: Seq<(Seq<char>, Seq<char>)>,
    s1: Score,
    s2: Score,
    id1: usize,
    id2: usize,
    rng: StdRng,
    n: int,
)
    requires
        0 <= n,
    ensures
        drawn_picks(anc, e1, e2, s1, s2, id1, id2, rng, n).0.len() == n,
    decreases n,
{
    if n > 0 {
        lemma_picks_len(anc, e1, e2, s1, s2, id1, id2, rng, n - 1);
    }
}

/// Nothing is drawn where fewer than two programs may be merged or there are fewer
/// than three in all.
pub proof fn too_few_programs_are_not_merged<Id: DataId, A: ScoreArithmetic>(
    pool: MergePool,
    arith: A,
    made: Seq<(usize, usize, Seq<usize>)>,
    rule: Option<OverlapRule<Id>>,
    attempts: nat,
    rng: StdRng,
    after: StdRng,
    r: Option<MergeView>,
)
    requires
        merge_drawn(pool, arith, made, rule, attempts, rng, after, r),
        pool.programs.len() < 2 || pool.parents.len() < 3,
    ensures
        r is None,
        after == rng,
{
}

/// As long as mutations are made only while no merge is due, no more merges succeed
/// or are due than may succeed.
pub proof fn merges_stay_within_the_budget(p: MergeProposer)
    requires
        p.total_merges_tested + p.merges_due <= p.max_merge_invocations,
    ensures
        p.merges_due == 0 ==> {
            let m = p.after_accepting(StepKind::ReflectiveMutation);
            m.total_merges_tested + m.merges_due <= m.max_merge_invocations
        },
        p.merges_due > 0 ==> {
            let m = p.after_accepting(StepKind::Merge);
            m.total_merges_tested + m.merges_due <= m.max_merge_invocations
        },
{
}

/// A merge is tried on five of the examples that both parents were scored on, or on
/// all of them where there are fewer, and on each only once.
pub proof fn a_merge_is_tried_on_five_examples<Id: DataId>(
    plan: MergePlan<Id>,
    state: GEPAState<Id>,
)
    requires
        plan.fits(state),
        state.prog_candidate_val_subscores@[plan.id1 as int].wf(),
    ensures
        ({
            let a = state.prog_candidate_val_subscores@[plan.id1 as int]@;
            let b = state.prog_candidate_val_subscores@[plan.id2 as int]@;
            &&& views(plan.subsample_ids@).no_duplicates()
            &&& plan.subsample_ids@.len() == smaller(
                5,
                a.dom().intersect(b.dom()).len() as int,
            )
        }),
        MERGE_ATTEMPTS == 10,
{
    let a = state.prog_candidate_val_subscores@[plan.id1 as int];
    let b = state.prog_candidate_val_subscores@[plan.id2 as int];
    a.lemma_size();
    balanced_choice_has_some_of_each(views(plan.subsample_ids@), a.key_seq(), a@, b@, 5);
}

} // verus!
