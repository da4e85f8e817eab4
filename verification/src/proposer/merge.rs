//! Merges of two candidates that share an ancestor.
//!
//! Two candidates that improved on a common ancestor in different components
//! are merged component by component.
use std::collections::HashSet;

use rand::rngs::StdRng;
use vstd::prelude::*;

use crate::keyed::KeyMap;
use crate::optimizer::adapter::{
    candidate_copy, candidate_entries, candidate_pairs, candidate_set,
    distinct_names, entry_position, lemma_entry_position, pair_views, text_in, text_or_empty,
    Candidate,
};
use crate::optimizer::data_loader::DataId;
use crate::proposer::merge_draws::{
    ancestor_drawn, drawn_picks, in_order, merge_drawn, merge_search, pair_attempt, pair_outcome,
    pair_search, scores_of_programs, source_of, weighted_pick, MergePool, MergeView,
};
use crate::random::{choose_one, choose_some, chosen_some, draw_word, drawn_word};
use crate::score::{sums_to, Score, ScoreArithmetic};
use crate::utils::pareto::sorted;
use crate::utils::programs::{intersection, members, ProgramIdx};

verus! {

broadcast use vstd::std_specs::hash::group_hash_axioms;

/// Two candidates and their ancestor: a merge that was tried.
pub type AncestorLog = (ProgramIdx, ProgramIdx, ProgramIdx);

/// Two candidates, and which of them each component was taken from.
pub type MergeDescription = (ProgramIdx, ProgramIdx, Vec<ProgramIdx>);

/// Whether `a` is a parent of `node`.
pub open spec fn is_parent(parents: Seq<Vec<Option<usize>>>, node: usize, a: usize) -> bool {
    &&& node < parents.len()
    &&& exists|k: int|
        0 <= k < parents[node as int]@.len() && #[trigger] parents[node as int]@[k] == Some(a)
}

/// Whether `a` is reached from `node` in at most `steps` steps to parents.
pub open spec fn reached(
    parents: Seq<Vec<Option<usize>>>,
    node: usize,
    a: usize,
    steps: nat,
) -> bool
    decreases steps,
{
    &&& steps > 0
    &&& {
        ||| is_parent(parents, node, a)
        ||| exists|p: usize| #[trigger] is_parent(parents, node, p) && reached(
            parents,
            p,
            a,
            (steps - 1) as nat,
        )
    }
}

/// Whether `a` is an ancestor of `node`.
pub open spec fn is_ancestor(parents: Seq<Vec<Option<usize>>>, node: usize, a: usize) -> bool {
    exists|steps: nat| reached(parents, node, a, steps)
}

/// Every parent is a node.
pub open spec fn parents_in_range(parents: Seq<Vec<Option<usize>>>) -> bool {
    forall|i: int, k: int|
        0 <= i < parents.len() && 0 <= k < parents[i]@.len() ==> (
        #[trigger] parents[i]@[k] matches Some(p) ==> p < parents.len())
}

proof fn lemma_below_len(s: Set<usize>, n: nat)
    requires
        s.finite(),
        forall|p: usize| #[trigger] s.contains(p) ==> p < n,
    ensures
        s.len() <= n,
    decreases n,
{
    if n == 0 {
        assert(s =~= Set::empty());
    } else {
        let last = (n - 1) as usize;
        if n - 1 <= usize::MAX {
            lemma_below_len(s.remove(last), (n - 1) as nat);
        } else {
            lemma_below_len(s, (n - 1) as nat);
        }
    }
}

proof fn lemma_step(parents: Seq<Vec<Option<usize>>>, node: usize, p: usize, a: usize)
    requires
        is_parent(parents, p, a),
        node == p || is_ancestor(parents, node, p),
    ensures
        is_ancestor(parents, node, a),
{
    if node == p {
        assert(reached(parents, node, a, 1));
    } else {
        let steps = choose|steps: nat| reached(parents, node, p, steps);
        lemma_longer(parents, node, p, a, steps);
    }
}

proof fn lemma_longer(parents: Seq<Vec<Option<usize>>>, node: usize, p: usize, a: usize, steps: nat)
    requires
        reached(parents, node, p, steps),
        is_parent(parents, p, a),
    ensures
        reached(parents, node, a, steps + 1),
    decreases steps,
{
    if is_parent(parents, node, p) {
        assert(reached(parents, p, a, steps));
    } else {
        let q = choose|q: usize| #[trigger] is_parent(parents, node, q) && reached(
            parents,
            q,
            p,
            (steps - 1) as nat,
        );
        lemma_longer(parents, q, p, a, (steps - 1) as nat);
        assert(is_parent(parents, node, q) && reached(parents, q, a, steps));
    }
}

proof fn lemma_closed(
    parents: Seq<Vec<Option<usize>>>,
    node: usize,
    visited: Set<usize>,
    a: usize,
    steps: nat,
)
    requires
        reached(parents, node, a, steps),
        forall|p: usize| #[trigger] is_parent(parents, node, p) ==> visited.contains(p),
        forall|n: usize, p: usize|
            visited.contains(n) && #[trigger] is_parent(parents, n, p) ==> visited.contains(p),
    ensures
        visited.contains(a),
    decreases steps,
{
    if !is_parent(parents, node, a) {
        let q = choose|q: usize| #[trigger] is_parent(parents, node, q) && reached(
            parents,
            q,
            a,
            (steps - 1) as nat,
        );
        lemma_closed(parents, q, visited, a, (steps - 1) as nat);
    }
}

/// All ancestors of `node`.
pub fn get_ancestors(node: ProgramIdx, parent_list: &Vec<Vec<Option<ProgramIdx>>>) -> (visited:
    HashSet<ProgramIdx>)
    requires
        node < parent_list@.len(),
        parents_in_range(parent_list@),
    ensures
        forall|a: usize| #[trigger]
            visited@.contains(a) <==> is_ancestor(parent_list@, node, a),
        forall|a: usize| #[trigger] visited@.contains(a) ==> a < parent_list@.len(),
{
    let ghost parents = parent_list@;
    let mut visited: HashSet<usize> = HashSet::new();
    let mut stack: Vec<usize> = vec![node];
    proof {
        assert(visited@.len() == 0);
        assert(stack@ =~= seq![node]);
        assert(stack@.contains(node)) by {
            assert(stack@[0] == node);
        }
    }
    while stack.len() > 0
        invariant
            parents == parent_list@,
            parents_in_range(parents),
            node < parents.len(),
            visited@.finite(),
            forall|a: usize| #[trigger] visited@.contains(a) ==> a < parents.len(),
            forall|a: usize| #[trigger] visited@.contains(a) ==> is_ancestor(parents, node, a),
            forall|k: int|
                0 <= k < stack@.len() ==> (#[trigger] stack@[k]) < parents.len() && (stack@[k]
                    == node || visited@.contains(stack@[k])),
            forall|n: usize, p: usize|
                (n == node || visited@.contains(n)) && !stack@.contains(n)
                    && #[trigger] is_parent(parents, n, p) ==> visited@.contains(p),
            visited@.len() <= parents.len(),
        decreases parents.len() - visited@.len(), stack@.len(),
    {
        let ghost stack0 = stack@;
        let ghost visited0 = visited@;
        let n: usize = stack.pop().unwrap();
        assert(stack0 =~= stack@.push(n));
        assert(stack0[stack0.len() - 1] == n);
        let row = &parent_list[n];
        let mut k: usize = 0;
        while k < row.len()
            invariant
                parents == parent_list@,
                parents_in_range(parents),
                node < parents.len(),
                n < parents.len(),
                *row == parents[n as int],
                k <= row@.len(),
                n == node || visited@.contains(n),
                visited0.subset_of(visited@),
                visited@.finite(),
                    visited@.len() <= parents.len(),
                visited@.len() >= visited0.len(),
                visited@.len() == visited0.len() ==> stack@.len() < stack0.len(),
                stack@.len() >= stack0.len() - 1,
                forall|a: usize| #[trigger] visited@.contains(a) ==> a < parents.len(),
                forall|a: usize| #[trigger] visited@.contains(a) ==> is_ancestor(parents, node, a),
                forall|i: int|
                    0 <= i < stack@.len() ==> (#[trigger] stack@[i]) < parents.len() && (stack@[i]
                        == node || visited@.contains(stack@[i])),
                forall|i: int|
                    0 <= i < stack0.len() - 1 ==> #[trigger] stack@[i] == stack0[i],
                forall|a: usize| #[trigger]
                    visited@.contains(a) ==> visited0.contains(a) || stack@.contains(a),
                forall|i: int|
                    0 <= i < k && (#[trigger] row@[i]) is Some ==> visited@.contains(row@[i]->0),
            decreases row@.len() - k,
        {
            if let Some(parent) = row[k] {
                assert(parents[n as int]@[k as int] == Some(parent));
                assert(is_parent(parents, n, parent));
                proof {
                    lemma_step(parents, node, n, parent);
                }
                if !visited.contains(&parent) {
                    let ghost v1 = visited@;
                    let ghost s1 = stack@;
                    visited.insert(parent);
                    stack.push(parent);
                    proof {
                        lemma_below_len(visited@, parents.len());
                        assert forall|a: usize| #[trigger] visited@.contains(a) implies
                            visited0.contains(a) || stack@.contains(a) by {
                            if a == parent {
                                assert(stack@[s1.len() as int] == parent);
                            } else if !visited0.contains(a) {
                                assert(s1.contains(a));
                                let i = choose|i: int| 0 <= i < s1.len() && s1[i] == a;
                                assert(stack@[i] == a);
                            }
                        }
                    }
                }
            }
            k += 1;
        }
        proof {
            assert forall|m: usize, p: usize|
                (m == node || visited@.contains(m)) && !stack@.contains(m)
                    && #[trigger] is_parent(parents, m, p) implies visited@.contains(p) by {
                if m == n {
                    let i = choose|i: int|
                        0 <= i < parents[n as int]@.len() && #[trigger] parents[n as int]@[i]
                            == Some(p);
                    assert(row@[i] == Some(p));
                } else {
                    assert(m == node || visited0.contains(m));
                    if stack0.contains(m) {
                        let i = choose|i: int| 0 <= i < stack0.len() && stack0[i] == m;
                        assert(i < stack0.len() - 1);
                        assert(stack@[i] == m);
                    }
                    assert(visited0.contains(p));
                }
            }
        }
    }
    proof {
        assert forall|a: usize| #[trigger] visited@.contains(a) <==> is_ancestor(
            parents,
            node,
            a,
        ) by {
            if is_ancestor(parents, node, a) {
                let steps = choose|steps: nat| reached(parents, node, a, steps);
                lemma_closed(parents, node, visited@, a, steps);
            }
        }
    }
    visited
}

/// Whether one child kept the ancestor's text and the other changed it.
pub open spec fn one_changed(anc: Seq<char>, t1: Seq<char>, t2: Seq<char>) -> bool {
    (anc == t1 || anc == t2) && t1 != t2
}

/// Whether some component of the ancestor was kept by one child and changed by
/// the other.
pub open spec fn desirable(
    anc: Seq<(Seq<char>, Seq<char>)>,
    e1: Seq<(Seq<char>, Seq<char>)>,
    e2: Seq<(Seq<char>, Seq<char>)>,
) -> bool {
    exists|k: int|
        0 <= k < anc.len() && one_changed(
            text_or_empty(anc, (#[trigger] anc[k]).0),
            text_or_empty(e1, anc[k].0),
            text_or_empty(e2, anc[k].0),
        )
}

/// Whether a merge of candidates `id1` and `id2` with respect to `ancestor` can
/// bring improvements together: some component was kept by one and changed by
/// the other.
pub fn does_triplet_have_desirable_predictors(
    candidates: &Vec<Candidate>,
    ancestor: ProgramIdx,
    id1: ProgramIdx,
    id2: ProgramIdx,
) -> (b: bool)
    requires
        ancestor < candidates@.len(),
        id1 < candidates@.len(),
        id2 < candidates@.len(),
    ensures
        b == desirable(
            candidate_entries(candidates@[ancestor as int]),
            candidate_entries(candidates@[id1 as int]),
            candidate_entries(candidates@[id2 as int]),
        ),
{
    let ghost anc = candidate_entries(candidates@[ancestor as int]);
    let pairs = candidate_pairs(&candidates[ancestor]);
    let mut k: usize = 0;
    while k < pairs.len()
        invariant
            ancestor < candidates@.len(),
            id1 < candidates@.len(),
            id2 < candidates@.len(),
            anc == candidate_entries(candidates@[ancestor as int]),
            pair_views(pairs@) == anc,
            k <= pairs@.len(),
            forall|j: int|
                0 <= j < k ==> !one_changed(
                    text_or_empty(anc, (#[trigger] anc[j]).0),
                    text_or_empty(candidate_entries(candidates@[id1 as int]), anc[j].0),
                    text_or_empty(candidate_entries(candidates@[id2 as int]), anc[j].0),
                ),
        decreases pairs@.len() - k,
    {
        let name = pairs[k].0.as_str();
        assert(anc[k as int].0 == name@);
        let t0 = text_in(&candidates[ancestor], name);
        let t1 = text_in(&candidates[id1], name);
        let t2 = text_in(&candidates[id2], name);
        if (t0 == t1 || t0 == t2) && t1 != t2 {
            return true;
        }
        k += 1;
    }
    false
}

/// The components of the candidates.
pub open spec fn entries_of(candidates: Seq<Candidate>, i: int) -> Seq<(Seq<char>, Seq<char>)> {
    candidate_entries(candidates[i])
}

/// Whether `a` may serve as the ancestor in a merge of `i` and `j`: the merge
/// was not tried, neither child scores below the ancestor, and the merge can
/// bring improvements together.
pub open spec fn usable_ancestor(
    i: usize,
    j: usize,
    a: usize,
    tried: Seq<AncestorLog>,
    agg_scores: Seq<Score>,
    candidates: Seq<Candidate>,
) -> bool {
    &&& !tried.contains((i, j, a))
    &&& !agg_scores[a as int].above(agg_scores[i as int])
    &&& !agg_scores[a as int].above(agg_scores[j as int])
    &&& desirable(
        entries_of(candidates, a as int),
        entries_of(candidates, i as int),
        entries_of(candidates, j as int),
    )
}

fn was_tried(tried: &Vec<AncestorLog>, i: ProgramIdx, j: ProgramIdx, a: ProgramIdx) -> (b: bool)
    ensures
        b == tried@.contains((i, j, a)),
{
    let mut k: usize = 0;
    while k < tried.len()
        invariant
            k <= tried@.len(),
            forall|q: int| 0 <= q < k ==> tried@[q] != (i, j, a),
        decreases tried@.len() - k,
    {
        if tried[k].0 == i && tried[k].1 == j && tried[k].2 == a {
            assert(tried@[k as int] == (i, j, a));
            return true;
        }
        k += 1;
    }
    false
}

/// Those of `common_ancestors` that may serve as the ancestor in a merge of `i`
/// and `j`, in ascending order.
pub fn filter_ancestors(
    i: ProgramIdx,
    j: ProgramIdx,
    common_ancestors: &HashSet<ProgramIdx>,
    merges_performed: &(Vec<AncestorLog>, Vec<MergeDescription>),
    agg_scores: &Vec<Score>,
    candidates: &Vec<Candidate>,
) -> (list: Vec<ProgramIdx>)
    requires
        i < agg_scores@.len(),
        j < agg_scores@.len(),
        i < candidates@.len(),
        j < candidates@.len(),
        forall|a: usize| #[trigger]
            common_ancestors@.contains(a) ==> a < agg_scores@.len() && a < candidates@.len(),
    ensures
        crate::utils::pareto::ascending(list@),
        forall|a: usize| #[trigger]
            list@.contains(a) <==> common_ancestors@.contains(a) && usable_ancestor(
                i,
                j,
                a,
                merges_performed.0@,
                agg_scores@,
                candidates@,
            ),
        forall|a: usize| #[trigger]
            list@.contains(a) ==> !agg_scores@[a as int].above(agg_scores@[i as int])
                && !agg_scores@[a as int].above(agg_scores@[j as int])
                && !merges_performed.0@.contains((i, j, a)),
{
    let found = members(common_ancestors);
    let all = sorted(&found);
    let mut list: Vec<usize> = Vec::new();
    let mut k: usize = 0;
    assert forall|a: usize| #[trigger] all@.contains(a) implies common_ancestors@.contains(a) by {
        assert(found@.contains(a));
        assert(found@.to_set().contains(a));
    }
    while k < all.len()
        invariant
            i < agg_scores@.len(),
            j < agg_scores@.len(),
            i < candidates@.len(),
            j < candidates@.len(),
            forall|a: usize| #[trigger]
                common_ancestors@.contains(a) ==> a < agg_scores@.len() && a < candidates@.len(),
            forall|a: usize| #[trigger] all@.contains(a) ==> common_ancestors@.contains(a),
            crate::utils::pareto::ascending(all@),
            k <= all@.len(),
            crate::utils::pareto::ascending(list@),
            forall|q: int|
                0 <= q < list@.len() ==> k > 0 && (#[trigger] list@[q]) <= all@[k - 1],
            forall|a: usize| #[trigger]
                list@.contains(a) <==> (exists|q: int| 0 <= q < k && all@[q] == a)
                    && usable_ancestor(
                    i,
                    j,
                    a,
                    merges_performed.0@,
                    agg_scores@,
                    candidates@,
                ),
        decreases all@.len() - k,
    {
        let a: usize = all[k];
        assert(all@.contains(a));
        let ghost before = list@;
        let keep = !was_tried(&merges_performed.0, i, j, a) && !agg_scores[a].exceeds(
            &agg_scores[i],
        ) && !agg_scores[a].exceeds(&agg_scores[j]) && does_triplet_have_desirable_predictors(
            candidates,
            a,
            i,
            j,
        );
        if keep {
            list.push(a);
        }
        proof {
            assert forall|b: usize| #[trigger] list@.contains(b) <==> (exists|q: int|
                0 <= q < k + 1 && all@[q] == b) && usable_ancestor(
                i,
                j,
                b,
                merges_performed.0@,
                agg_scores@,
                candidates@,
            ) by {
                if list@.contains(b) {
                    let q = choose|q: int| 0 <= q < list@.len() && list@[q] == b;
                    if q < before.len() {
                        assert(before.contains(b));
                        let p = choose|p: int| 0 <= p < k && all@[p] == b;
                        assert(0 <= p < k + 1 && all@[p] == b);
                    } else {
                        assert(all@[k as int] == b);
                    }
                }
                if (exists|q: int| 0 <= q < k + 1 && all@[q] == b) && usable_ancestor(
                    i,
                    j,
                    b,
                    merges_performed.0@,
                    agg_scores@,
                    candidates@,
                ) {
                    let q = choose|q: int| 0 <= q < k + 1 && all@[q] == b;
                    if q < k {
                        assert(before.contains(b));
                        let p = choose|p: int| 0 <= p < before.len() && before[p] == b;
                        assert(list@[p] == b);
                    } else {
                        assert(list@[before.len() as int] == b);
                    }
                }
            }
        }
        k += 1;
    }
    assert forall|a: usize| #[trigger] list@.contains(a) <==> common_ancestors@.contains(a)
        && usable_ancestor(i, j, a, merges_performed.0@, agg_scores@, candidates@) by {
        if common_ancestors@.contains(a) {
            assert(found@.to_set().contains(a));
            assert(found@.contains(a));
            assert(all@.contains(a));
        }
        if exists|q: int| 0 <= q < all@.len() && all@[q] == a {
            assert(all@.contains(a));
        }
    }
    list
}

/// The elements that were chosen from distinct positions of a list without
/// repetitions are distinct and in the list.
pub(crate) proof fn lemma_chosen(list: Seq<usize>, chosen: Seq<usize>)
    requires
        list.no_duplicates(),
        chosen.to_multiset().subset_of(list.to_multiset()),
    ensures
        chosen.no_duplicates(),
        forall|p: usize| #[trigger] chosen.contains(p) ==> list.contains(p),
{
    list.to_multiset_ensures();
    chosen.to_multiset_ensures();
    list.lemma_multiset_has_no_duplicates();
    assert forall|p: usize| #[trigger] chosen.contains(p) implies list.contains(p) by {
        assert(chosen.to_multiset().count(p) > 0);
        assert(chosen.to_multiset().count(p) <= list.to_multiset().count(p));
    }
    assert forall|p: usize| #[trigger] chosen.to_multiset().contains(p) implies
        chosen.to_multiset().count(p) == 1 by {
        assert(chosen.to_multiset().count(p) <= list.to_multiset().count(p));
        assert(list.to_multiset().contains(p));
    }
    chosen.lemma_multiset_has_no_duplicates_conv();
}

/// The chosen elements are in the list.
proof fn lemma_chosen_within(list: Seq<usize>, chosen: Seq<usize>)
    requires
        chosen.to_multiset().subset_of(list.to_multiset()),
    ensures
        forall|i: int| 0 <= i < chosen.len() ==> list.contains(#[trigger] chosen[i]),
{
    list.to_multiset_ensures();
    chosen.to_multiset_ensures();
    assert forall|i: int| 0 <= i < chosen.len() implies list.contains(#[trigger] chosen[i]) by {
        assert(chosen.contains(chosen[i]));
        assert(chosen.to_multiset().count(chosen[i]) > 0);
        assert(chosen.to_multiset().count(chosen[i]) <= list.to_multiset().count(chosen[i]));
    }
}

/// Whether `sums` are the running sums of the scores of `list`, from zero on.
pub open spec fn running_sums<A: ScoreArithmetic>(
    arith: A,
    list: Seq<usize>,
    agg_scores: Seq<Score>,
    sums: Seq<Score>,
) -> bool {
    &&& 0 < sums.len() <= list.len() + 1
    &&& sums[0] == Score { bits: 0 }
    &&& forall|k: int|
        0 <= k < sums.len() - 1 ==> call_ensures(
            A::plus,
            (&arith, #[trigger] sums[k], agg_scores[list[k] as int]),
            sums[k + 1],
        )
}

/// The first element of `list` at which the running sum of the scores reaches
/// `point`, or the first of all where none does.
pub fn pick_weighted<A: ScoreArithmetic>(
    list: &Vec<ProgramIdx>,
    agg_scores: &Vec<Score>,
    point: Score,
    arith: &A,
) -> (chosen: ProgramIdx)
    requires
        list@.len() > 0,
        forall|k: int| 0 <= k < list@.len() ==> (#[trigger] list@[k]) < agg_scores@.len(),
    ensures
        list@.contains(chosen),
        weighted_pick(*arith, list@, agg_scores@, point, chosen),
{
    let mut cumulative = Score::zero();
    let ghost mut sums: Seq<Score> = seq![cumulative];
    let mut k: usize = 0;
    while k < list.len()
        invariant
            k <= list@.len(),
            forall|q: int| 0 <= q < list@.len() ==> (#[trigger] list@[q]) < agg_scores@.len(),
            sums.len() == k + 1,
            sums[k as int] == cumulative,
            running_sums(*arith, list@, agg_scores@, sums),
            forall|q: int| 1 <= q <= k ==> !(#[trigger] sums[q]).at_least(point),
        decreases list@.len() - k,
    {
        let ghost before = sums;
        let next = arith.plus(cumulative, agg_scores[list[k]]);
        proof {
            sums = sums.push(next);
            assert forall|q: int| 0 <= q < sums.len() - 1 implies call_ensures(
                A::plus,
                (arith, #[trigger] sums[q], agg_scores@[list@[q] as int]),
                sums[q + 1],
            ) by {
                if q < k {
                    assert(sums[q] == before[q]);
                    assert(sums[q + 1] == before[q + 1]);
                }
            }
            assert(running_sums(*arith, list@, agg_scores@, sums));
            assert forall|q: int| 1 <= q < k + 1 implies !(#[trigger] sums[q]).at_least(point) by {
                assert(sums[q] == before[q]);
            }
        }
        cumulative = next;
        if cumulative.reaches(&point) {
            let chosen: usize = list[k];
            assert(list@[k as int] == chosen);
            return chosen;
        }
        k += 1;
    }
    assert(list@[0] == list@[0] && list@.contains(list@[0]));
    list[0]
}

/// Whether a merge of `i` and `j` with respect to `a` may be made: both are
/// among the candidates for a merge, neither descends from the other, and `a`
/// is a common ancestor that may serve as such.
pub open spec fn mergeable(
    parents: Seq<Vec<Option<usize>>>,
    program_indexes: Seq<usize>,
    tried: Seq<AncestorLog>,
    agg_scores: Seq<Score>,
    candidates: Seq<Candidate>,
    i: usize,
    j: usize,
    a: usize,
) -> bool {
    &&& drawable(program_indexes, i, j)
    &&& !is_ancestor(parents, i, j)
    &&& !is_ancestor(parents, j, i)
    &&& is_ancestor(parents, i, a)
    &&& is_ancestor(parents, j, a)
    &&& a < parents.len()
    &&& usable_ancestor(i, j, a, tried, agg_scores, candidates)
}

/// Whether `i` and `j`, in ascending order, may be drawn from the programs.
pub open spec fn drawable(program_indexes: Seq<usize>, i: usize, j: usize) -> bool {
    &&& program_indexes.contains(i)
    &&& program_indexes.contains(j)
    &&& i <= j
    &&& program_indexes.no_duplicates() ==> i < j
}

/// Whether two programs may be drawn that have no ancestor for a merge.
pub open spec fn some_pair_is_barren(
    parents: Seq<Vec<Option<usize>>>,
    program_indexes: Seq<usize>,
    tried: Seq<AncestorLog>,
    agg_scores: Seq<Score>,
    candidates: Seq<Candidate>,
) -> bool {
    exists|i: usize, j: usize| #[trigger]
        drawable(program_indexes, i, j) && forall|a: usize|
            !#[trigger] mergeable(
                parents,
                program_indexes,
                tried,
                agg_scores,
                candidates,
                i,
                j,
                a,
            )
}

/// Every list has an entry for each program.
pub open spec fn merge_inputs_ok(
    parents: Seq<Vec<Option<usize>>>,
    program_indexes: Seq<usize>,
    agg_scores: Seq<Score>,
    candidates: Seq<Candidate>,
) -> bool {
    &&& parents_in_range(parents)
    &&& parents.len() <= agg_scores.len()
    &&& parents.len() <= candidates.len()
    &&& forall|k: int|
        0 <= k < program_indexes.len() ==> (#[trigger] program_indexes[k]) < parents.len()
}

/// Draw two programs and a common ancestor that a merge may be made of. An
/// ancestor with a higher score is more likely. Only where some two programs
/// have no such ancestor can all draws fail.
pub fn find_common_ancestor_pair<A: ScoreArithmetic>(
    rng: &mut StdRng,
    parent_list: &Vec<Vec<Option<ProgramIdx>>>,
    program_indexes: &Vec<ProgramIdx>,
    merges_performed: &(Vec<AncestorLog>, Vec<MergeDescription>),
    agg_scores: &Vec<Score>,
    candidates: &Vec<Candidate>,
    max_attempts: usize,
    arith: &A,
) -> (r: Option<(ProgramIdx, ProgramIdx, ProgramIdx)>)
    requires
        merge_inputs_ok(parent_list@, program_indexes@, agg_scores@, candidates@),
    ensures
        ({
            let pool = MergePool {
                parents: parent_list@,
                programs: program_indexes@,
                tried: merges_performed.0@,
                agg_scores: agg_scores@,
                candidates: candidates@,
            };
            if program_indexes@.len() < 2 {
                r is None && *final(rng) == *old(rng)
            } else {
                pair_search(pool, *arith, max_attempts as nat, *old(rng), *final(rng), r)
            }
        }),
        r matches Some((i, j, a)) ==> mergeable(
            parent_list@,
            program_indexes@,
            merges_performed.0@,
            agg_scores@,
            candidates@,
            i,
            j,
            a,
        ),
        program_indexes@.len() < 2 || max_attempts == 0 ==> r is None,
        r is None ==> program_indexes@.len() < 2 || max_attempts == 0 || some_pair_is_barren(
            parent_list@,
            program_indexes@,
            merges_performed.0@,
            agg_scores@,
            candidates@,
        ),
{
    if program_indexes.len() < 2 {
        return None;
    }
    let ghost pool = MergePool {
        parents: parent_list@,
        programs: program_indexes@,
        tried: merges_performed.0@,
        agg_scores: agg_scores@,
        candidates: candidates@,
    };
    let ghost a0 = *arith;
    let ghost start = *rng;
    let ghost all = max_attempts as nat;
    let mut attempt: usize = 0;
    while attempt < max_attempts
        invariant
            a0 == *arith,
            start == *old(rng),
            all == max_attempts,
            pool == (MergePool {
                parents: parent_list@,
                programs: program_indexes@,
                tried: merges_performed.0@,
                agg_scores: agg_scores@,
                candidates: candidates@,
            }),
            forall|after: StdRng, r: Option<(usize, usize, usize)>|
                #[trigger] pair_search(
                    pool,
                    a0,
                    (max_attempts - attempt) as nat,
                    *rng,
                    after,
                    r,
                ) ==> pair_search(pool, a0, all, start, after, r),
            merge_inputs_ok(parent_list@, program_indexes@, agg_scores@, candidates@),
            program_indexes@.len() >= 2,
            attempt <= max_attempts,
            attempt > 0 ==> some_pair_is_barren(
                parent_list@,
                program_indexes@,
                merges_performed.0@,
                agg_scores@,
                candidates@,
            ),
        decreases max_attempts - attempt,
    {
        let ghost here = *rng;
        let ghost left = (max_attempts - attempt) as nat;
        attempt += 1;
        let pair = choose_some(program_indexes, 2, rng);
        proof {
            lemma_chosen_within(program_indexes@, pair@);
            if program_indexes@.no_duplicates() {
                lemma_chosen(program_indexes@, pair@);
                assert(pair@[0] != pair@[1]);
            }
        }
        let (i, j) = if pair[1] < pair[0] {
            (pair[1], pair[0])
        } else {
            (pair[0], pair[1])
        };
        proof {
            assert(program_indexes@.contains(pair@[0]));
            assert(program_indexes@.contains(pair@[1]));
            assert(drawable(program_indexes@, i, j));
            assert(chosen_some(here, pool.programs, 2) == (pair@, *rng));
            assert(in_order(pair@[0], pair@[1]) == (i, j));
            assert((left - 1) as nat == (max_attempts - attempt) as nat);
        }
        let ancestors_i = get_ancestors(i, parent_list);
        let ancestors_j = get_ancestors(j, parent_list);
        if ancestors_i.contains(&j) || ancestors_j.contains(&i) {
            proof {
                let none: Seq<usize> = seq![];
                assert(pool.lists_ancestors(i, j, none));
                assert(pair_outcome(pool, a0, i, j, *rng, *rng, None));
                assert(pair_attempt(pool, a0, here, *rng, None));
                lemma_search_goes_on(pool, a0, all, start, left, here, *rng);
            }
            continue;
        }
        let common = intersection(&ancestors_i, &ancestors_j);
        let valid = filter_ancestors(i, j, &common, merges_performed, agg_scores, candidates);
        if valid.len() == 0 {
            proof {
                assert forall|a: usize|
                    !#[trigger] mergeable(
                        parent_list@,
                        program_indexes@,
                        merges_performed.0@,
                        agg_scores@,
                        candidates@,
                        i,
                        j,
                        a,
                    ) by {
                    assert(common@.contains(a) <==> ancestors_i@.contains(a)
                        && ancestors_j@.contains(a));
                    assert(!valid@.contains(a));
                }
                assert(pool.lists_ancestors(i, j, valid@));
                assert(pair_outcome(pool, a0, i, j, *rng, *rng, None));
                assert(pair_attempt(pool, a0, here, *rng, None));
                lemma_search_goes_on(pool, a0, all, start, left, here, *rng);
            }
            continue;
        }
        proof {
            assert forall|k: int| 0 <= k < valid@.len() implies (#[trigger] valid@[k])
                < agg_scores@.len() && common@.contains(valid@[k]) by {
                assert(valid@.contains(valid@[k]));
            }
        }
        assert(pool.lists_ancestors(i, j, valid@)) by {
            assert forall|a: usize| #[trigger] valid@.contains(a) <==> mergeable(
                pool.parents,
                pool.programs,
                pool.tried,
                pool.agg_scores,
                pool.candidates,
                i,
                j,
                a,
            ) by {
                assert(common@.contains(a) <==> ancestors_i@.contains(a)
                    && ancestors_j@.contains(a));
            }
        }
        let ghost mid = *rng;
        let weights = scores_at(&valid, agg_scores);
        let total = arith.sum(&weights);
        assert(sums_to(a0, scores_of_programs(valid@, agg_scores@), total));
        let a: usize = if Score::zero().reaches(&total) {
            match choose_one(&valid, rng) {
                Some(a) => a,
                None => valid[0],
            }
        } else {
            let word: u64 = draw_word(rng);
            let point = arith.point(word, total);
            assert(call_ensures(A::point, (&a0, drawn_word(mid).0, total), point));
            pick_weighted(&valid, agg_scores, point, arith)
        };
        assert(common@.contains(a));
        proof {
            assert(ancestor_drawn(a0, valid@, agg_scores@, mid, *rng, a));
            assert(pair_outcome(pool, a0, i, j, mid, *rng, Some((i, j, a))));
            assert(pair_attempt(pool, a0, here, *rng, Some((i, j, a))));
            assert(pair_search(pool, a0, left, here, *rng, Some((i, j, a))));
        }
        return Some((i, j, a));
    }
    assert(pair_search(pool, a0, (max_attempts - attempt) as nat, *rng, *rng, None));
    None
}

/// Where a draw comes to nothing, what the further draws come to is what all of
/// them come to.
proof fn lemma_search_goes_on<A: ScoreArithmetic>(
    pool: MergePool,
    arith: A,
    all: nat,
    start: StdRng,
    left: nat,
    here: StdRng,
    next: StdRng,
)
    requires
        left > 0,
        pair_attempt(pool, arith, here, next, None),
        forall|after: StdRng, r: Option<(usize, usize, usize)>|
            #[trigger] pair_search(pool, arith, left, here, after, r) ==> pair_search(
                pool,
                arith,
                all,
                start,
                after,
                r,
            ),
    ensures
        forall|after: StdRng, r: Option<(usize, usize, usize)>|
            #[trigger] pair_search(pool, arith, (left - 1) as nat, next, after, r) ==> pair_search(
                pool,
                arith,
                all,
                start,
                after,
                r,
            ),
{
    assert forall|after: StdRng, r: Option<(usize, usize, usize)>|
        #[trigger] pair_search(pool, arith, (left - 1) as nat, next, after, r) implies pair_search(
        pool,
        arith,
        all,
        start,
        after,
        r,
    ) by {
        assert(pair_search(pool, arith, left, here, after, r));
    }
}

/// The scores of the programs in `list`.
fn scores_at(list: &Vec<ProgramIdx>, agg_scores: &Vec<Score>) -> (scores: Vec<Score>)
    requires
        forall|k: int| 0 <= k < list@.len() ==> (#[trigger] list@[k]) < agg_scores@.len(),
    ensures
        scores@ == scores_of_programs(list@, agg_scores@),
{
    let mut scores: Vec<Score> = Vec::new();
    let mut k: usize = 0;
    while k < list.len()
        invariant
            forall|q: int| 0 <= q < list@.len() ==> (#[trigger] list@[q]) < agg_scores@.len(),
            k <= list@.len(),
            scores@.len() == k,
            forall|q: int| 0 <= q < k ==> scores@[q] == agg_scores@[list@[q] as int],
        decreases list@.len() - k,
    {
        scores.push(agg_scores[list[k]]);
        k += 1;
    }
    assert(scores@ =~= scores_of_programs(list@, agg_scores@));
    scores
}

/// Whether `pick` may be the child that a component is taken from: where one
/// child kept the ancestor's text and the other changed it, the one that
/// changed it; where both changed it, the one with the higher score, or either
/// of two that score alike; else the first.
pub open spec fn allowed_pick(
    pick: usize,
    anc: Seq<char>,
    t1: Seq<char>,
    t2: Seq<char>,
    s1: Score,
    s2: Score,
    id1: usize,
    id2: usize,
) -> bool {
    if one_changed(anc, t1, t2) {
        pick == if anc == t1 {
            id2
        } else {
            id1
        }
    } else if anc != t1 && anc != t2 {
        if s1.above(s2) {
            pick == id1
        } else if s2.above(s1) {
            pick == id2
        } else {
            pick == id1 || pick == id2
        }
    } else {
        pick == id1
    }
}

/// The child that a component is taken from, or nothing where it is left to
/// chance.
pub fn component_source(
    anc: &String,
    t1: &String,
    t2: &String,
    s1: &Score,
    s2: &Score,
    id1: ProgramIdx,
    id2: ProgramIdx,
) -> (pick: Option<ProgramIdx>)
    ensures
        pick == source_of(anc@, t1@, t2@, *s1, *s2, id1, id2),
        match pick {
            Some(p) => (p == id1 || p == id2) && forall|q: usize|
                allowed_pick(q, anc@, t1@, t2@, *s1, *s2, id1, id2) <==> q == p,
            None => forall|q: usize|
                allowed_pick(q, anc@, t1@, t2@, *s1, *s2, id1, id2) <==> (q == id1 || q == id2),
        },
{
    if (*anc == *t1 || *anc == *t2) && *t1 != *t2 {
        if *anc == *t1 {
            Some(id2)
        } else {
            Some(id1)
        }
    } else if *anc != *t1 && *anc != *t2 {
        if s1.exceeds(s2) {
            Some(id1)
        } else if s2.exceeds(s1) {
            Some(id2)
        } else {
            None
        }
    } else {
        Some(id1)
    }
}

/// The components of a merge that takes component `k` from `picks[k]`.
pub open spec fn merged_entries(
    anc: Seq<(Seq<char>, Seq<char>)>,
    e1: Seq<(Seq<char>, Seq<char>)>,
    e2: Seq<(Seq<char>, Seq<char>)>,
    id1: usize,
    picks: Seq<usize>,
) -> Seq<(Seq<char>, Seq<char>)> {
    Seq::new(
        anc.len(),
        |k: int|
            (
                anc[k].0,
                text_or_empty(
                    if picks[k] == id1 {
                        e1
                    } else {
                        e2
                    },
                    anc[k].0,
                ),
            ),
    )
}

/// Whether each component may be taken from the child that `picks` names.
pub open spec fn allowed_picks(
    anc: Seq<(Seq<char>, Seq<char>)>,
    e1: Seq<(Seq<char>, Seq<char>)>,
    e2: Seq<(Seq<char>, Seq<char>)>,
    s1: Score,
    s2: Score,
    id1: usize,
    id2: usize,
    picks: Seq<usize>,
) -> bool {
    &&& picks.len() == anc.len()
    &&& forall|k: int|
        0 <= k < anc.len() ==> allowed_pick(
            #[trigger] picks[k],
            text_or_empty(anc, anc[k].0),
            text_or_empty(e1, anc[k].0),
            text_or_empty(e2, anc[k].0),
            s1,
            s2,
            id1,
            id2,
        )
}

/// A merge of two candidates, component by component, and which child each
/// component was taken from.
pub fn merge_components(
    rng: &mut StdRng,
    ancestor: &Candidate,
    child1: &Candidate,
    child2: &Candidate,
    s1: &Score,
    s2: &Score,
    id1: ProgramIdx,
    id2: ProgramIdx,
) -> (r: (Candidate, Vec<ProgramIdx>))
    requires
        id1 != id2,
    ensures
        allowed_picks(
            candidate_entries(*ancestor),
            candidate_entries(*child1),
            candidate_entries(*child2),
            *s1,
            *s2,
            id1,
            id2,
            r.1@,
        ),
        candidate_entries(r.0) == merged_entries(
            candidate_entries(*ancestor),
            candidate_entries(*child1),
            candidate_entries(*child2),
            id1,
            r.1@,
        ),
        (r.1@, *final(rng)) == drawn_picks(
            candidate_entries(*ancestor),
            candidate_entries(*child1),
            candidate_entries(*child2),
            *s1,
            *s2,
            id1,
            id2,
            *old(rng),
            candidate_entries(*ancestor).len() as int,
        ),
{
    let ghost anc = candidate_entries(*ancestor);
    let ghost e1 = candidate_entries(*child1);
    let ghost e2 = candidate_entries(*child2);
    let pairs = candidate_pairs(ancestor);
    let mut program = candidate_copy(ancestor);
    let mut picks: Vec<usize> = Vec::new();
    let mut k: usize = 0;
    while k < pairs.len()
        invariant
            id1 != id2,
            anc == candidate_entries(*ancestor),
            e1 == candidate_entries(*child1),
            e2 == candidate_entries(*child2),
            pair_views(pairs@) == anc,
            distinct_names(anc),
            k <= pairs@.len(),
            picks@.len() == k,
            (picks@, *rng) == drawn_picks(anc, e1, e2, *s1, *s2, id1, id2, *old(rng), k as int),
            forall|q: int|
                0 <= q < k ==> allowed_pick(
                    #[trigger] picks@[q],
                    text_or_empty(anc, anc[q].0),
                    text_or_empty(e1, anc[q].0),
                    text_or_empty(e2, anc[q].0),
                    *s1,
                    *s2,
                    id1,
                    id2,
                ),
            candidate_entries(program).len() == anc.len(),
            forall|q: int|
                0 <= q < anc.len() ==> #[trigger] candidate_entries(program)[q] == if q < k {
                    merged_entries(anc, e1, e2, id1, picks@)[q]
                } else {
                    anc[q]
                },
        decreases pairs@.len() - k,
    {
        let name = pairs[k].0.as_str();
        assert(anc[k as int].0 == name@);
        let t0 = text_in(ancestor, name);
        let t1 = text_in(child1, name);
        let t2 = text_in(child2, name);
        let pick: usize = match component_source(&t0, &t1, &t2, s1, s2, id1, id2) {
            Some(p) => p,
            None => {
                let both: Vec<usize> = vec![id1, id2];
                match choose_one(&both, rng) {
                    Some(p) => {
                        assert(both@ =~= seq![id1, id2]);
                        p
                    },
                    None => id1,
                }
            },
        };
        assert(pick == id1 || pick == id2);
        let text = if pick == id1 {
            t1
        } else {
            t2
        };
        let ghost before = candidate_entries(program);
        let ghost picks0 = picks@;
        proof {
            lemma_entry_position(before, name@);
            let at = entry_position(before, name@);
            assert(before[k as int].0 == name@);
            assert(at is Some);
            assert(anc[at->0].0 == name@);
            assert(at->0 == k) by {
                if at->0 < k {
                    assert(anc[at->0].0 != anc[k as int].0);
                } else if at->0 > k {
                    assert(anc[k as int].0 != anc[at->0].0);
                }
            }
        }
        let ghost new_text = text@;
        candidate_set(&mut program, name.to_owned(), text);
        picks.push(pick);
        proof {
            let after = candidate_entries(program);
            assert(after == before.update(k as int, (name@, new_text)));
            assert forall|q: int| 0 <= q < anc.len() implies #[trigger] after[q] == if q < k + 1 {
                merged_entries(anc, e1, e2, id1, picks@)[q]
            } else {
                anc[q]
            } by {
                if q < k {
                    assert(before[q] == merged_entries(anc, e1, e2, id1, picks0)[q]);
                    assert(picks@[q] == picks0[q]);
                }
            }
            assert forall|q: int| 0 <= q < k + 1 implies allowed_pick(
                #[trigger] picks@[q],
                text_or_empty(anc, anc[q].0),
                text_or_empty(e1, anc[q].0),
                text_or_empty(e2, anc[q].0),
                *s1,
                *s2,
                id1,
                id2,
            ) by {
                if q < k {
                    assert(picks@[q] == picks0[q]);
                }
            }
        }
        k += 1;
    }
    assert(candidate_entries(program) =~= merged_entries(anc, e1, e2, id1, picks@));
    (program, picks)
}

/// The keys of `a` among its first `n` that satisfy `f`: how many.
pub open spec fn count_keys<K>(keys: Seq<K>, f: spec_fn(K) -> bool, n: int) -> nat
    decreases n,
{
    if n <= 0 {
        0
    } else {
        count_keys(keys, f, n - 1) + if f(keys[n - 1]) {
            1nat
        } else {
            0
        }
    }
}

/// The number of examples that both programs were scored on.
pub open spec fn shared_count<Id: DataId>(a: KeyMap<Id, Score>, b: KeyMap<Id, Score>) -> nat {
    count_keys(a.key_seq(), |k: Id::V| b@.dom().contains(k), a.key_seq().len() as int)
}

fn count_shared<Id: DataId>(a: &KeyMap<Id, Score>, b: &KeyMap<Id, Score>) -> (n: usize)
    requires
        a.wf(),
        b.wf(),
    ensures
        n == shared_count(*a, *b),
{
    let ghost f = |k: Id::V| b@.dom().contains(k);
    let len: usize = a.len();
    let mut n: usize = 0;
    let mut i: usize = 0;
    while i < len
        invariant
            a.wf(),
            b.wf(),
            f == (|k: Id::V| b@.dom().contains(k)),
            len == a.key_seq().len(),
            i <= len,
            n <= i,
            n == count_keys(a.key_seq(), f, i as int),
        decreases len - i,
    {
        if b.contains_key(a.key_at(i)) {
            n += 1;
        }
        i += 1;
    }
    n
}

/// The logged merges, with the sources of the components as sequences.
pub open spec fn descriptions(log: Seq<MergeDescription>) -> Seq<(usize, usize, Seq<usize>)> {
    Seq::new(log.len(), |i: int| (log[i].0, log[i].1, log[i].2@))
}

fn same_indexes(a: &Vec<ProgramIdx>, b: &Vec<ProgramIdx>) -> (r: bool)
    ensures
        r == (a@ == b@),
{
    if a.len() != b.len() {
        return false;
    }
    let mut i: usize = 0;
    while i < a.len()
        invariant
            a@.len() == b@.len(),
            i <= a@.len(),
            forall|j: int| 0 <= j < i ==> a@[j] == b@[j],
        decreases a@.len() - i,
    {
        if a[i] != b[i] {
            return false;
        }
        i += 1;
    }
    assert(a@ =~= b@);
    true
}

fn was_described(
    log: &Vec<MergeDescription>,
    id1: ProgramIdx,
    id2: ProgramIdx,
    picks: &Vec<ProgramIdx>,
) -> (b: bool)
    ensures
        b == descriptions(log@).contains((id1, id2, picks@)),
{
    let mut k: usize = 0;
    while k < log.len()
        invariant
            k <= log@.len(),
            forall|q: int| 0 <= q < k ==> #[trigger] descriptions(log@)[q] != (id1, id2, picks@),
        decreases log@.len() - k,
    {
        assert(descriptions(log@)[k as int] == (
            log@[k as int].0,
            log@[k as int].1,
            log@[k as int].2@,
        ));
        if log[k].0 == id1 && log[k].1 == id2 && same_indexes(&log[k].2, picks) {
            return true;
        }
        k += 1;
    }
    false
}

/// The examples that programs were scored on, and how many two programs must
/// share.
pub type OverlapRule<'a, Id> = (&'a Vec<KeyMap<Id, Score>>, usize);

/// Whether two programs share enough examples.
pub open spec fn overlap_enough<Id: DataId>(
    rule: Option<OverlapRule<Id>>,
    id1: usize,
    id2: usize,
) -> bool {
    rule matches Some((subscores, floor)) ==> shared_count(
        subscores@[id1 as int],
        subscores@[id2 as int],
    ) >= floor
}

/// Whether a merge of `id1` and `id2` with respect to `ancestor` gave a
/// candidate with the components `program`, by the sources `picks`.
pub open spec fn merge_made<Id: DataId>(
    parents: Seq<Vec<Option<usize>>>,
    merge_candidates: Seq<usize>,
    tried: Seq<AncestorLog>,
    made: Seq<(usize, usize, Seq<usize>)>,
    agg_scores: Seq<Score>,
    candidates: Seq<Candidate>,
    rule: Option<OverlapRule<Id>>,
    program: Seq<(Seq<char>, Seq<char>)>,
    id1: usize,
    id2: usize,
    ancestor: usize,
    picks: Seq<usize>,
) -> bool {
    &&& mergeable(
        parents,
        merge_candidates,
        tried,
        agg_scores,
        candidates,
        id1,
        id2,
        ancestor,
    )
    &&& allowed_picks(
        entries_of(candidates, ancestor as int),
        entries_of(candidates, id1 as int),
        entries_of(candidates, id2 as int),
        agg_scores[id1 as int],
        agg_scores[id2 as int],
        id1,
        id2,
        picks,
    )
    &&& program == merged_entries(
        entries_of(candidates, ancestor as int),
        entries_of(candidates, id1 as int),
        entries_of(candidates, id2 as int),
        id1,
        picks,
    )
    &&& !made.contains((id1, id2, picks))
    &&& overlap_enough(rule, id1, id2)
}

/// Whether a merge that may be made can give what an earlier merge gave, or is
/// of programs that share too few examples.
pub open spec fn some_merge_is_refused<Id: DataId>(
    parents: Seq<Vec<Option<usize>>>,
    merge_candidates: Seq<usize>,
    tried: Seq<AncestorLog>,
    made: Seq<(usize, usize, Seq<usize>)>,
    agg_scores: Seq<Score>,
    candidates: Seq<Candidate>,
    rule: Option<OverlapRule<Id>>,
) -> bool {
    exists|id1: usize, id2: usize, ancestor: usize, picks: Seq<usize>|
        {
            &&& #[trigger] mergeable(
                parents,
                merge_candidates,
                tried,
                agg_scores,
                candidates,
                id1,
                id2,
                ancestor,
            )
            &&& #[trigger] allowed_picks(
                entries_of(candidates, ancestor as int),
                entries_of(candidates, id1 as int),
                entries_of(candidates, id2 as int),
                agg_scores[id1 as int],
                agg_scores[id2 as int],
                id1,
                id2,
                picks,
            )
            &&& made.contains((id1, id2, picks)) || !overlap_enough(rule, id1, id2)
        }
}

/// Whether all draws for a merge can fail.
pub open spec fn merge_can_fail<Id: DataId>(
    parents: Seq<Vec<Option<usize>>>,
    merge_candidates: Seq<usize>,
    tried: Seq<AncestorLog>,
    made: Seq<(usize, usize, Seq<usize>)>,
    agg_scores: Seq<Score>,
    candidates: Seq<Candidate>,
    rule: Option<OverlapRule<Id>>,
) -> bool {
    ||| merge_candidates.len() < 2
    ||| parents.len() < 3
    ||| some_pair_is_barren(parents, merge_candidates, tried, agg_scores, candidates)
    ||| some_merge_is_refused(
        parents,
        merge_candidates,
        tried,
        made,
        agg_scores,
        candidates,
        rule,
    )
}

/// Try to merge two of the programs `merge_candidates`. A merge that was tried
/// before, that gives what an earlier merge gave, or whose programs share too
/// few examples is not made. A merge that is made is logged. Where no draw can
/// be refused, a merge is made.
pub fn attempt_merge<Id: DataId, A: ScoreArithmetic>(
    rng: &mut StdRng,
    agg_scores: &Vec<Score>,
    merge_candidates: &Vec<ProgramIdx>,
    merges_performed: &mut (Vec<AncestorLog>, Vec<MergeDescription>),
    candidates: &Vec<Candidate>,
    parent_list: &Vec<Vec<Option<ProgramIdx>>>,
    has_val_support_overlap: Option<OverlapRule<Id>>,
    max_attempts: usize,
    arith: &A,
) -> (r: Option<(Candidate, ProgramIdx, ProgramIdx, ProgramIdx)>)
    requires
        merge_inputs_ok(parent_list@, merge_candidates@, agg_scores@, candidates@),
        has_val_support_overlap matches Some((subscores, _)) ==> parent_list@.len()
            <= subscores@.len() && forall|i: int|
            0 <= i < subscores@.len() ==> (#[trigger] subscores@[i]).wf(),
    ensures
        merge_drawn(
            MergePool {
                parents: parent_list@,
                programs: merge_candidates@,
                tried: old(merges_performed).0@,
                agg_scores: agg_scores@,
                candidates: candidates@,
            },
            *arith,
            descriptions(old(merges_performed).1@),
            has_val_support_overlap,
            max_attempts as nat,
            *old(rng),
            *final(rng),
            merge_view(r, descriptions(final(merges_performed).1@)),
        ),
        final(merges_performed).0 == old(merges_performed).0,
        merge_candidates@.len() < 2 || parent_list@.len() < 3 || max_attempts == 0 ==> r is None,
        r matches Some((program, id1, id2, ancestor)) ==> {
            let before = descriptions(old(merges_performed).1@);
            let after = descriptions(final(merges_performed).1@);
            &&& after.len() == before.len() + 1
            &&& after == before.push((id1, id2, after.last().2))
            &&& merge_made(
                parent_list@,
                merge_candidates@,
                old(merges_performed).0@,
                before,
                agg_scores@,
                candidates@,
                has_val_support_overlap,
                candidate_entries(program),
                id1,
                id2,
                ancestor,
                after.last().2,
            )
        },
        r is None ==> {
            &&& final(merges_performed).1 == old(merges_performed).1
            &&& max_attempts == 0 || merge_can_fail(
                parent_list@,
                merge_candidates@,
                old(merges_performed).0@,
                descriptions(old(merges_performed).1@),
                agg_scores@,
                candidates@,
                has_val_support_overlap,
            )
        },
{
    if merge_candidates.len() < 2 || parent_list.len() < 3 {
        return None;
    }
    let ghost pool = MergePool {
        parents: parent_list@,
        programs: merge_candidates@,
        tried: merges_performed.0@,
        agg_scores: agg_scores@,
        candidates: candidates@,
    };
    let ghost a0 = *arith;
    let ghost start = *rng;
    let ghost all = max_attempts as nat;
    let ghost made = descriptions(merges_performed.1@);
    let mut attempt: usize = 0;
    while attempt < max_attempts
        invariant
            a0 == *arith,
            start == *old(rng),
            all == max_attempts,
            made == descriptions(old(merges_performed).1@),
            pool == (MergePool {
                parents: parent_list@,
                programs: merge_candidates@,
                tried: old(merges_performed).0@,
                agg_scores: agg_scores@,
                candidates: candidates@,
            }),
            forall|after: StdRng, r: Option<MergeView>|
                #[trigger] merge_search(
                    pool,
                    a0,
                    made,
                    has_val_support_overlap,
                    all,
                    (max_attempts - attempt) as nat,
                    *rng,
                    after,
                    r,
                ) ==> merge_search(
                    pool,
                    a0,
                    made,
                    has_val_support_overlap,
                    all,
                    all,
                    start,
                    after,
                    r,
                ),
            merge_inputs_ok(parent_list@, merge_candidates@, agg_scores@, candidates@),
            has_val_support_overlap matches Some((subscores, _)) ==> parent_list@.len()
                <= subscores@.len() && forall|i: int|
                0 <= i < subscores@.len() ==> (#[trigger] subscores@[i]).wf(),
            *merges_performed == *old(merges_performed),
            attempt <= max_attempts,
            attempt > 0 ==> merge_can_fail(
                parent_list@,
                merge_candidates@,
                old(merges_performed).0@,
                descriptions(old(merges_performed).1@),
                agg_scores@,
                candidates@,
                has_val_support_overlap,
            ),
            merge_candidates@.len() >= 2,
            parent_list@.len() >= 3,
        decreases max_attempts - attempt,
    {
        let ghost here = *rng;
        let ghost left = (max_attempts - attempt) as nat;
        attempt += 1;
        let found = find_common_ancestor_pair(
            rng,
            parent_list,
            merge_candidates,
            merges_performed,
            agg_scores,
            candidates,
            max_attempts,
            arith,
        );
        let ghost mid = *rng;
        assert(pair_search(pool, a0, all, here, mid, found));
        let (id1, id2, ancestor) = match found {
            Some(t) => t,
            None => {
                assert(merge_search(
                    pool,
                    a0,
                    made,
                    has_val_support_overlap,
                    all,
                    left,
                    here,
                    *rng,
                    None,
                ));
                return None;
            },
        };
        proof {
            let k1 = choose|k: int| 0 <= k < merge_candidates@.len() && merge_candidates@[k] == id1;
            let k2 = choose|k: int| 0 <= k < merge_candidates@.len() && merge_candidates@[k] == id2;
            assert(merge_candidates@[k1] < parent_list@.len());
            assert(merge_candidates@[k2] < parent_list@.len());
        }
        let (program, picks) = merge_components(
            rng,
            &candidates[ancestor],
            &candidates[id1],
            &candidates[id2],
            &agg_scores[id1],
            &agg_scores[id2],
            id1,
            id2,
        );
        assert((left - 1) as nat == (max_attempts - attempt) as nat);
        if was_described(&merges_performed.1, id1, id2, &picks) {
            proof {
                lemma_merges_go_on(
                    pool,
                    a0,
                    made,
                    has_val_support_overlap,
                    all,
                    start,
                    left,
                    here,
                    mid,
                    (id1, id2, ancestor),
                    picks@,
                    *rng,
                );
            }
            continue;
        }
        let overlap = match has_val_support_overlap {
            Some((subscores, floor)) => {
                assert(subscores@[id1 as int].wf());
                assert(subscores@[id2 as int].wf());
                count_shared(&subscores[id1], &subscores[id2]) >= floor
            },
            None => true,
        };
        if !overlap {
            proof {
                lemma_merges_go_on(
                    pool,
                    a0,
                    made,
                    has_val_support_overlap,
                    all,
                    start,
                    left,
                    here,
                    mid,
                    (id1, id2, ancestor),
                    picks@,
                    *rng,
                );
            }
            continue;
        }
        let ghost pv = picks@;
        let ghost log = merges_performed.1@;
        merges_performed.1.push((id1, id2, picks));
        assert(descriptions(merges_performed.1@) =~= descriptions(log).push((id1, id2, pv)));
        assert(merge_made(
            parent_list@,
            merge_candidates@,
            old(merges_performed).0@,
            descriptions(old(merges_performed).1@),
            agg_scores@,
            candidates@,
            has_val_support_overlap,
            candidate_entries(program),
            id1,
            id2,
            ancestor,
            pv,
        ));
        assert(merge_search(
            pool,
            a0,
            made,
            has_val_support_overlap,
            all,
            left,
            here,
            *rng,
            Some((candidate_entries(program), id1, id2, ancestor, pv)),
        ));
        return Some((program, id1, id2, ancestor));
    }
    assert(merge_search(
        pool,
        a0,
        made,
        has_val_support_overlap,
        all,
        (max_attempts - attempt) as nat,
        *rng,
        *rng,
        None,
    ));
    None
}

/// A merge as a view, where `log` ends with which program each component is from.
pub open spec fn merge_view(
    r: Option<(Candidate, ProgramIdx, ProgramIdx, ProgramIdx)>,
    log: Seq<(usize, usize, Seq<usize>)>,
) -> Option<MergeView> {
    match r {
        Some((program, id1, id2, ancestor)) => Some(
            (candidate_entries(program), id1, id2, ancestor, log.last().2),
        ),
        None => None,
    }
}

/// Where a merge is refused, what the further ones come to is what all of them
/// come to.
proof fn lemma_merges_go_on<Id: DataId, A: ScoreArithmetic>(
    pool: MergePool,
    arith: A,
    made: Seq<(usize, usize, Seq<usize>)>,
    rule: Option<OverlapRule<Id>>,
    all: nat,
    start: StdRng,
    left: nat,
    here: StdRng,
    mid: StdRng,
    found: (usize, usize, usize),
    picks: Seq<usize>,
    rest: StdRng,
)
    requires
        left > 0,
        pair_search(pool, arith, all, here, mid, Some(found)),
        (picks, rest) == ({
            let anc = entries_of(pool.candidates, found.2 as int);
            drawn_picks(
                anc,
                entries_of(pool.candidates, found.0 as int),
                entries_of(pool.candidates, found.1 as int),
                pool.agg_scores[found.0 as int],
                pool.agg_scores[found.1 as int],
                found.0,
                found.1,
                mid,
                anc.len() as int,
            )
        }),
        made.contains((found.0, found.1, picks)) || !overlap_enough(rule, found.0, found.1),
        forall|after: StdRng, r: Option<MergeView>|
            #[trigger] merge_search(pool, arith, made, rule, all, left, here, after, r)
                ==> merge_search(pool, arith, made, rule, all, all, start, after, r),
    ensures
        forall|after: StdRng, r: Option<MergeView>|
            #[trigger] merge_search(
                pool,
                arith,
                made,
                rule,
                all,
                (left - 1) as nat,
                rest,
                after,
                r,
            ) ==> merge_search(pool, arith, made, rule, all, all, start, after, r),
{
    assert forall|after: StdRng, r: Option<MergeView>|
        #[trigger] merge_search(
            pool,
            arith,
            made,
            rule,
            all,
            (left - 1) as nat,
            rest,
            after,
            r,
        ) implies merge_search(pool, arith, made, rule, all, all, start, after, r) by {
        assert(merge_search(pool, arith, made, rule, all, left, here, after, r));
    }
}

/// What a merge takes: where one child changed a component and the other kept
/// the ancestor's text, the change; where both have the same text, that; where
/// both changed it, the text of the child that scores higher.
pub proof fn merge_takes_the_change(
    anc: Seq<(Seq<char>, Seq<char>)>,
    e1: Seq<(Seq<char>, Seq<char>)>,
    e2: Seq<(Seq<char>, Seq<char>)>,
    s1: Score,
    s2: Score,
    id1: usize,
    id2: usize,
    picks: Seq<usize>,
    k: int,
)
    requires
        allowed_picks(anc, e1, e2, s1, s2, id1, id2, picks),
        0 <= k < anc.len(),
        id1 != id2,
    ensures
        ({
            let merged = merged_entries(anc, e1, e2, id1, picks);
            let name = anc[k].0;
            let t0 = text_or_empty(anc, name);
            let t1 = text_or_empty(e1, name);
            let t2 = text_or_empty(e2, name);
            &&& merged.len() == anc.len()
            &&& merged[k].0 == name
            &&& t1 != t0 && t2 == t0 ==> merged[k].1 == t1
            &&& t2 != t0 && t1 == t0 ==> merged[k].1 == t2
            &&& t1 == t2 ==> merged[k].1 == t1
            &&& t1 != t0 && t2 != t0 && s1.above(s2) ==> merged[k].1 == t1
            &&& t1 != t0 && t2 != t0 && s2.above(s1) ==> merged[k].1 == t2
        }),
{
    let name = anc[k].0;
    assert(allowed_pick(
        picks[k],
        text_or_empty(anc, name),
        text_or_empty(e1, name),
        text_or_empty(e2, name),
        s1,
        s2,
        id1,
        id2,
    ));
    if s1.above(s2) && s2.above(s1) {
        assert(false);
    }
}

} // verus!
