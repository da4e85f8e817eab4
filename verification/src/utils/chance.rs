//! Equal generators give equal choices.
use rand::rngs::StdRng;
use vstd::prelude::*;
use vstd::relations::{
    antisymmetric, reflexive, sorted_by, strongly_connected, total_ordering, transitive,
};

use crate::error::Result;
use crate::score::Score;
use crate::utils::pareto::{
    all_numbers, coverage, covered, dominated, drawn_from, elimination_order, final_survivors,
    lists_fronts, on_some_front, rank_score, sampled_from, selected, survivors, tried_before,
    weighted_survivors,
};
use crate::utils::programs::ProgramIdx;

verus! {

/// The order of elimination, for programs that have numbers as scores.
spec fn not_after(scores: Option<Seq<Score>>, p: usize, q: usize) -> bool {
    let a = rank_score(scores, p).place();
    let b = rank_score(scores, q).place();
    a < b || (a == b && p <= q)
}

proof fn lemma_not_after_total(scores: Option<Seq<Score>>)
    ensures
        total_ordering(|p: usize, q: usize| not_after(scores, p, q)),
{
    let leq = |p: usize, q: usize| not_after(scores, p, q);
    assert(reflexive(leq));
    assert(antisymmetric(leq)) by {
        assert forall|x: usize, y: usize| #[trigger] leq(x, y) && #[trigger] leq(y, x) implies x
            == y by {}
    }
    assert(transitive(leq)) by {
        assert forall|x: usize, y: usize, z: usize| #[trigger]
            leq(x, y) && #[trigger] leq(y, z) implies leq(x, z) by {}
    }
    assert(strongly_connected(leq)) by {
        assert forall|x: usize, y: usize| #[trigger] leq(x, y) || #[trigger] leq(y, x) by {}
    }
}

proof fn lemma_same_elements(a: Seq<usize>, b: Seq<usize>)
    requires
        a.no_duplicates(),
        b.no_duplicates(),
        forall|p: usize| #[trigger] a.contains(p) <==> b.contains(p),
    ensures
        a.to_multiset() == b.to_multiset(),
{
    a.to_multiset_ensures();
    b.to_multiset_ensures();
    a.lemma_multiset_has_no_duplicates();
    b.lemma_multiset_has_no_duplicates();
    assert forall|p: usize| a.to_multiset().count(p) == b.to_multiset().count(p) by {
        assert(a.contains(p) <==> a.to_multiset().count(p) > 0);
        assert(b.contains(p) <==> b.to_multiset().count(p) > 0);
        assert(a.contains(p) <==> b.contains(p));
    }
    assert(a.to_multiset() =~= b.to_multiset());
}

/// There is one order of elimination.
proof fn lemma_one_order(
    a: Seq<usize>,
    b: Seq<usize>,
    sets: Seq<Set<usize>>,
    scores: Option<Seq<Score>>,
)
    requires
        elimination_order(a, sets, scores),
        elimination_order(b, sets, scores),
        all_numbers(scores, a),
    ensures
        a == b,
{
    let leq = |p: usize, q: usize| not_after(scores, p, q);
    assert(all_numbers(scores, b)) by {
        assert forall|i: int| 0 <= i < b.len() implies !rank_score(
            scores,
            #[trigger] b[i],
        ).nan() by {
            assert(b.contains(b[i]));
            assert(a.contains(b[i]));
            let j = choose|j: int| 0 <= j < a.len() && a[j] == b[i];
            assert(!rank_score(scores, a[j]).nan());
        }
    }
    lemma_not_after_total(scores);
    assert(sorted_by(a, leq)) by {
        assert forall|i: int, j: int| 0 <= i < j < a.len() implies leq(a[i], a[j]) by {
            assert(tried_before(scores, a[i], a[j]));
        }
    }
    assert(sorted_by(b, leq)) by {
        assert forall|i: int, j: int| 0 <= i < j < b.len() implies leq(b[i], b[j]) by {
            assert(tried_before(scores, b[i], b[j]));
        }
    }
    assert forall|p: usize| #[trigger] a.contains(p) <==> b.contains(p) by {
        assert(on_some_front(sets, p) <==> on_some_front(sets, p));
    }
    lemma_same_elements(a, b);
    vstd::seq_lib::lemma_sorted_unique(a, b, leq);
}

/// In whatever order the fronts are listed, the same programs are on them.
proof fn lemma_same_fronts<K>(
    frontier: Map<K, Set<usize>>,
    keys1: Seq<K>,
    sets1: Seq<Set<usize>>,
    keys2: Seq<K>,
    sets2: Seq<Set<usize>>,
    k: int,
) -> (j: int)
    requires
        lists_fronts(keys1, sets1, frontier),
        lists_fronts(keys2, sets2, frontier),
        0 <= k < sets1.len(),
    ensures
        0 <= j < sets2.len(),
        sets2[j] == sets1[k],
{
    assert(keys1.contains(keys1[k]));
    assert(keys2.contains(keys1[k]));
    let j = choose|j: int| 0 <= j < keys2.len() && keys2[j] == keys1[k];
    assert(sets1[k] == frontier[keys1[k]]);
    assert(sets2[j] == frontier[keys2[j]]);
    j
}

proof fn lemma_same_dominated<K>(
    frontier: Map<K, Set<usize>>,
    keys1: Seq<K>,
    sets1: Seq<Set<usize>>,
    keys2: Seq<K>,
    sets2: Seq<Set<usize>>,
    y: usize,
    pool: Set<usize>,
)
    requires
        lists_fronts(keys1, sets1, frontier),
        lists_fronts(keys2, sets2, frontier),
        dominated(y, pool, sets1),
    ensures
        dominated(y, pool, sets2),
{
    let k = choose|k: int| 0 <= k < sets1.len() && (#[trigger] sets1[k]).contains(y);
    let j = lemma_same_fronts(frontier, keys1, sets1, keys2, sets2, k);
    assert(sets2[j].contains(y));
    assert forall|m: int| 0 <= m < sets2.len() && (#[trigger] sets2[m]).contains(
        y,
    ) implies covered(sets2[m], pool) by {
        let q = lemma_same_fronts(frontier, keys2, sets2, keys1, sets1, m);
        assert(sets1[q].contains(y));
    }
}

proof fn lemma_same_survivors<K>(
    frontier: Map<K, Set<usize>>,
    keys1: Seq<K>,
    sets1: Seq<Set<usize>>,
    keys2: Seq<K>,
    sets2: Seq<Set<usize>>,
    order: Seq<usize>,
    n: int,
)
    requires
        lists_fronts(keys1, sets1, frontier),
        lists_fronts(keys2, sets2, frontier),
        0 <= n <= order.len(),
    ensures
        survivors(order, sets1, n) == survivors(order, sets2, n),
    decreases n,
{
    if n > 0 {
        lemma_same_survivors(frontier, keys1, sets1, keys2, sets2, order, n - 1);
        let left = survivors(order, sets1, n - 1);
        let y = order[n - 1];
        if dominated(y, left.remove(y), sets1) {
            lemma_same_dominated(frontier, keys1, sets1, keys2, sets2, y, left.remove(y));
        }
        if dominated(y, left.remove(y), sets2) {
            lemma_same_dominated(frontier, keys2, sets2, keys1, sets1, y, left.remove(y));
        }
    }
}

/// The keys of the fronts that a program is on.
spec fn keys_with<K>(frontier: Map<K, Set<usize>>, keys: Set<K>, p: usize) -> Set<K> {
    keys.filter(|k: K| frontier[k].contains(p))
}

proof fn lemma_coverage_counts_keys<K>(
    frontier: Map<K, Set<usize>>,
    keys: Seq<K>,
    sets: Seq<Set<usize>>,
    p: usize,
    n: int,
)
    requires
        lists_fronts(keys, sets, frontier),
        0 <= n <= sets.len(),
    ensures
        keys_with(frontier, keys.take(n).to_set(), p).finite(),
        coverage(sets, p, n) == keys_with(frontier, keys.take(n).to_set(), p).len(),
    decreases n,
{
    let now = keys_with(frontier, keys.take(n).to_set(), p);
    if n > 0 {
        lemma_coverage_counts_keys(frontier, keys, sets, p, n - 1);
        let before = keys_with(frontier, keys.take(n - 1).to_set(), p);
        let k = keys[n - 1];
        assert(keys.take(n) =~= keys.take(n - 1).push(k));
        let t0 = keys.take(n - 1);
        let t1 = keys.take(n);
        assert forall|x: K| #[trigger] t1.contains(x) <==> t0.contains(x) || x == k by {
            if t0.contains(x) {
                let i = choose|i: int| 0 <= i < t0.len() && t0[i] == x;
                assert(t1[i] == x);
            }
            if x == k {
                assert(t1[n - 1] == x);
            }
        }
        assert(!before.contains(k)) by {
            if t0.contains(k) {
                let i = choose|i: int| 0 <= i < t0.len() && t0[i] == k;
                assert(keys[i] == keys[n - 1]);
            }
        }
        assert(sets[n - 1] == frontier[k]);
        if sets[n - 1].contains(p) {
            assert(now =~= before.insert(k));
        } else {
            assert(now =~= before);
        }
    } else {
        assert(now =~= Set::empty());
    }
}

proof fn lemma_same_coverage<K>(
    frontier: Map<K, Set<usize>>,
    keys1: Seq<K>,
    sets1: Seq<Set<usize>>,
    keys2: Seq<K>,
    sets2: Seq<Set<usize>>,
    p: usize,
)
    requires
        lists_fronts(keys1, sets1, frontier),
        lists_fronts(keys2, sets2, frontier),
    ensures
        coverage(sets1, p, sets1.len() as int) == coverage(sets2, p, sets2.len() as int),
{
    lemma_coverage_counts_keys(frontier, keys1, sets1, p, sets1.len() as int);
    lemma_coverage_counts_keys(frontier, keys2, sets2, p, sets2.len() as int);
    assert(keys1.take(keys1.len() as int) =~= keys1);
    assert(keys2.take(keys2.len() as int) =~= keys2);
    assert(keys1.to_set() =~= keys2.to_set()) by {
        assert forall|k: K| keys1.to_set().contains(k) == keys2.to_set().contains(k) by {
            assert(keys1.contains(k) <==> frontier.dom().contains(k));
            assert(keys2.contains(k) <==> frontier.dom().contains(k));
        }
    }
}

/// There is one list that is sampled from, as long as the programs on the fronts
/// have numbers as scores.
pub proof fn one_list_is_sampled_from<K>(
    a: Seq<usize>,
    b: Seq<usize>,
    frontier: Map<K, Set<usize>>,
    scores: Seq<Score>,
)
    requires
        sampled_from(a, frontier, scores),
        sampled_from(b, frontier, scores),
        forall|i: int| 0 <= i < scores.len() ==> !(#[trigger] scores[i]).nan(),
    ensures
        a == b,
{
    let (keys1, sets1, order1) = choose|keys: Seq<K>, sets: Seq<Set<usize>>, order: Seq<usize>|
        {
            &&& #[trigger] lists_fronts(keys, sets, frontier)
            &&& #[trigger] elimination_order(order, sets, Some(scores))
            &&& weighted_survivors(a, sets, final_survivors(order, sets))
        };
    let (keys2, sets2, order2) = choose|keys: Seq<K>, sets: Seq<Set<usize>>, order: Seq<usize>|
        {
            &&& #[trigger] lists_fronts(keys, sets, frontier)
            &&& #[trigger] elimination_order(order, sets, Some(scores))
            &&& weighted_survivors(b, sets, final_survivors(order, sets))
        };
    assert(elimination_order(order2, sets1, Some(scores))) by {
        assert forall|p: usize| #[trigger] order2.contains(p) <==> on_some_front(sets1, p) by {
            if on_some_front(sets1, p) {
                let k = choose|k: int| 0 <= k < sets1.len() && (#[trigger] sets1[k]).contains(p);
                let j = lemma_same_fronts(frontier, keys1, sets1, keys2, sets2, k);
                assert(sets2[j].contains(p));
                assert(on_some_front(sets2, p));
            }
            if on_some_front(sets2, p) {
                let k = choose|k: int| 0 <= k < sets2.len() && (#[trigger] sets2[k]).contains(p);
                let j = lemma_same_fronts(frontier, keys2, sets2, keys1, sets1, k);
                assert(sets1[j].contains(p));
            }
        }
    }
    assert(all_numbers(Some(scores), order1));
    lemma_one_order(order1, order2, sets1, Some(scores));
    lemma_same_survivors(
        frontier,
        keys1,
        sets1,
        keys2,
        sets2,
        order1,
        order1.len() as int,
    );
    assert forall|p: usize| a.to_multiset().count(p) == b.to_multiset().count(p) by {
        lemma_same_coverage(frontier, keys1, sets1, keys2, sets2, p);
    }
    assert(a.to_multiset() =~= b.to_multiset());
    let leq = |p: usize, q: usize| p <= q;
    assert(total_ordering(leq));
    assert(sorted_by(a, leq));
    assert(sorted_by(b, leq));
    vstd::seq_lib::lemma_sorted_unique(a, b, leq);
}

/// Equal fronts, equal scores and equal generators give the same choice, and
/// leave equal generators, as long as the programs have numbers as scores.
pub proof fn equal_generators_give_equal_choices<K>(
    frontier: Map<K, Set<usize>>,
    scores: Seq<Score>,
    rng: StdRng,
    after1: StdRng,
    after2: StdRng,
    r1: Result<ProgramIdx>,
    r2: Result<ProgramIdx>,
)
    requires
        selected(frontier, scores, rng, after1, r1),
        selected(frontier, scores, rng, after2, r2),
        forall|i: int| 0 <= i < scores.len() ==> !(#[trigger] scores[i]).nan(),
    ensures
        r1 == r2,
        after1 == after2,
{
    let a = choose|list: Seq<usize>| #[trigger]
        sampled_from(list, frontier, scores) && drawn_from(list, rng, after1, r1);
    let b = choose|list: Seq<usize>| #[trigger]
        sampled_from(list, frontier, scores) && drawn_from(list, rng, after2, r2);
    one_list_is_sampled_from(a, b, frontier, scores);
}

} // verus!
