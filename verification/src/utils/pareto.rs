//! Sampling of programs from the Pareto frontier.
//!
//! A frontier maps each frontier key, such as a validation example, to the set
//! of programs that are best on that key.
use std::collections::HashSet;

use rand::rngs::StdRng;
use vstd::prelude::*;

use crate::error::{GEPAError, Result};
use crate::keyed::{KeyMap, MapKey};
use crate::optimizer::fronts::sets_view;
use crate::random::{draw_below, drawn_below};
use crate::score::{best_place, Score};
use crate::utils::programs::{intersection, members, set_of, ProgramIdx};

verus! {

broadcast use vstd::std_specs::hash::group_hash_axioms;

/// The sets of programs of a frontier, in the order of their keys.
pub open spec fn fronts<K: MapKey>(frontier: KeyMap<K, HashSet<ProgramIdx>>) -> Seq<Set<usize>> {
    Seq::new(frontier.value_seq().len(), |i: int| frontier.value_seq()[i]@)
}

/// Whether `p` is on some front.
pub open spec fn on_some_front(sets: Seq<Set<usize>>, p: usize) -> bool {
    exists|k: int| 0 <= k < sets.len() && (#[trigger] sets[k]).contains(p)
}

/// Whether some program of `pool` is on the front `front`.
pub open spec fn covered(front: Set<usize>, pool: Set<usize>) -> bool {
    exists|other: usize| #[trigger] front.contains(other) && pool.contains(other)
}

/// Whether `y` is on some front, and every front that it is on has a program
/// of `pool` too.
pub open spec fn dominated(y: usize, pool: Set<usize>, sets: Seq<Set<usize>>) -> bool {
    &&& on_some_front(sets, y)
    &&& forall|k: int|
        0 <= k < sets.len() && (#[trigger] sets[k]).contains(y) ==> covered(sets[k], pool)
}

/// Whether program `y` is dominated by the programs in `programs`: it is on
/// some front, and every front it is on has one of them as well.
pub fn is_dominated<Key: MapKey>(
    y: ProgramIdx,
    programs: &HashSet<ProgramIdx>,
    pareto_front_mapping: &KeyMap<Key, HashSet<ProgramIdx>>,
) -> (b: bool)
    requires
        pareto_front_mapping.wf(),
    ensures
        b == dominated(y, programs@, fronts(*pareto_front_mapping)),
{
    let ghost sets = fronts(*pareto_front_mapping);
    let n: usize = pareto_front_mapping.len();
    let mut appears = false;
    let mut k: usize = 0;
    while k < n
        invariant
            pareto_front_mapping.wf(),
            sets == fronts(*pareto_front_mapping),
            n == sets.len(),
            k <= n,
            appears == exists|i: int| 0 <= i < k && (#[trigger] sets[i]).contains(y),
            forall|i: int|
                0 <= i < k && (#[trigger] sets[i]).contains(y) ==> covered(sets[i], programs@),
        decreases n - k,
    {
        let front = pareto_front_mapping.value_at(k);
        assert(sets[k as int] == front@);
        if front.contains(&y) {
            appears = true;
            if !meets(front, programs) {
                return false;
            }
        }
        k += 1;
    }
    appears
}

/// Whether the two sets have a common member.
fn meets(front: &HashSet<ProgramIdx>, pool: &HashSet<ProgramIdx>) -> (b: bool)
    ensures
        b == covered(front@, pool@),
{
    let list = members(front);
    let mut i: usize = 0;
    while i < list.len()
        invariant
            i <= list.len(),
            list@.to_set() == front@,
            forall|j: int| 0 <= j < i ==> !pool@.contains(#[trigger] list@[j]),
        decreases list.len() - i,
    {
        if pool.contains(&list[i]) {
            assert(list@.contains(list@[i as int]));
            assert(list@.to_set().contains(list@[i as int]));
            assert(front@.contains(list@[i as int]));
            return true;
        }
        i += 1;
    }
    assert forall|other: usize| #[trigger] front@.contains(other) implies !pool@.contains(
        other,
    ) by {
        assert(list@.to_set().contains(other));
        assert(list@.contains(other));
    }
    false
}

/// The score by which program `p` is ordered: 1 where none is given for it.
pub open spec fn rank_score(scores: Option<Seq<Score>>, p: usize) -> Score {
    match scores {
        Some(s) => if p < s.len() {
            s[p as int]
        } else {
            Score { bits: 0x3ff0_0000_0000_0000 }
        },
        None => Score { bits: 0x3ff0_0000_0000_0000 },
    }
}

/// Whether `p` is tried before `q`: it scores lower, or the same and has the
/// smaller index.
pub open spec fn tried_before(scores: Option<Seq<Score>>, p: usize, q: usize) -> bool {
    let a = rank_score(scores, p);
    let b = rank_score(scores, q);
    b.above(a) || (a.level(b) && p < q)
}

/// Whether all programs of `order` have numbers as scores.
pub open spec fn all_numbers(scores: Option<Seq<Score>>, order: Seq<usize>) -> bool {
    forall|i: int| 0 <= i < order.len() ==> !rank_score(scores, #[trigger] order[i]).nan()
}

/// Whether `order` lists the programs that are on some front, each once and
/// the weakest first; of two that score the same, the one with the smaller
/// index. Scores that are no numbers leave the order open.
pub open spec fn elimination_order(
    order: Seq<usize>,
    sets: Seq<Set<usize>>,
    scores: Option<Seq<Score>>,
) -> bool {
    &&& order.no_duplicates()
    &&& forall|p: usize| #[trigger] order.contains(p) <==> on_some_front(sets, p)
    &&& all_numbers(scores, order) ==> forall|i: int, j: int|
        0 <= i < j < order.len() ==> tried_before(
            scores,
            #[trigger] order[i],
            #[trigger] order[j],
        )
}

/// The programs that are left once the first `n` of `order` were tried in
/// turn, each removed where the others that are left dominate it.
pub open spec fn survivors(order: Seq<usize>, sets: Seq<Set<usize>>, n: int) -> Set<usize>
    decreases n,
{
    if n <= 0 {
        order.to_set()
    } else {
        let left = survivors(order, sets, n - 1);
        let y = order[n - 1];
        if dominated(y, left.remove(y), sets) {
            left.remove(y)
        } else {
            left
        }
    }
}

/// The survivors of the whole elimination.
pub open spec fn final_survivors(order: Seq<usize>, sets: Seq<Set<usize>>) -> Set<usize> {
    survivors(order, sets, order.len() as int)
}

/// Every front keeps a survivor, unless it was empty.
pub proof fn fronts_keep_a_survivor(order: Seq<usize>, sets: Seq<Set<usize>>, n: int, k: int)
    requires
        0 <= n <= order.len(),
        0 <= k < sets.len(),
        forall|p: usize| on_some_front(sets, p) ==> #[trigger] order.contains(p),
        exists|p: usize| sets[k].contains(p),
    ensures
        covered(sets[k], survivors(order, sets, n)),
    decreases n,
{
    if n == 0 {
        let p = choose|p: usize| sets[k].contains(p);
        assert(on_some_front(sets, p));
        assert(order.contains(p));
        assert(order.to_set().contains(p));
    } else {
        fronts_keep_a_survivor(order, sets, n - 1, k);
        let left = survivors(order, sets, n - 1);
        let y = order[n - 1];
        if dominated(y, left.remove(y), sets) {
            let other = choose|other: usize| sets[k].contains(other) && left.contains(other);
            if other == y {
                assert(covered(sets[k], left.remove(y)));
            } else {
                assert(left.remove(y).contains(other));
            }
        }
    }
}

/// A smaller pool dominates no more.
proof fn lemma_dominated_monotone(y: usize, pool: Set<usize>, less: Set<usize>, sets: Seq<Set<usize>>)
    requires
        dominated(y, less, sets),
        less.subset_of(pool),
    ensures
        dominated(y, pool, sets),
{
    assert forall|k: int| 0 <= k < sets.len() && (#[trigger] sets[k]).contains(y) implies covered(
        sets[k],
        pool,
    ) by {
        assert(covered(sets[k], less));
        let other = choose|other: usize| sets[k].contains(other) && less.contains(other);
        assert(sets[k].contains(other) && pool.contains(other));
    }
}

/// No survivor is dominated by the other survivors.
pub proof fn survivors_are_undominated(order: Seq<usize>, sets: Seq<Set<usize>>, n: int, i: int)
    requires
        0 <= i < n <= order.len(),
        survivors(order, sets, n).contains(order[i]),
    ensures
        !dominated(order[i], survivors(order, sets, n).remove(order[i]), sets),
    decreases n,
{
    let left = survivors(order, sets, n - 1);
    let now = survivors(order, sets, n);
    let y = order[n - 1];
    if i == n - 1 {
        assert(!dominated(y, left.remove(y), sets));
    } else {
        survivors_are_undominated(order, sets, n - 1, i);
        if dominated(order[i], now.remove(order[i]), sets) {
            lemma_dominated_monotone(order[i], left.remove(order[i]), now.remove(order[i]), sets);
        }
    }
}

/// The survivors are programs of the order.
pub proof fn lemma_survivors_within(order: Seq<usize>, sets: Seq<Set<usize>>, n: int)
    ensures
        survivors(order, sets, n).subset_of(order.to_set()),
    decreases n,
{
    if n > 0 {
        lemma_survivors_within(order, sets, n - 1);
    }
}

/// The programs on the fronts of `frontier`, each once.
fn programs_of<Key: MapKey>(frontier: &KeyMap<Key, HashSet<ProgramIdx>>) -> (list: Vec<ProgramIdx>)
    requires
        frontier.wf(),
    ensures
        list@.no_duplicates(),
        forall|p: usize| #[trigger] list@.contains(p) <==> on_some_front(fronts(*frontier), p),
{
    let ghost sets = fronts(*frontier);
    let n: usize = frontier.len();
    let mut seen: HashSet<usize> = HashSet::new();
    let mut k: usize = 0;
    while k < n
        invariant
            frontier.wf(),
            sets == fronts(*frontier),
            n == sets.len(),
            k <= n,
            forall|p: usize|
                #[trigger] seen@.contains(p) <==> exists|i: int|
                    0 <= i < k && (#[trigger] sets[i]).contains(p),
        decreases n - k,
    {
        let front = frontier.value_at(k);
        assert(sets[k as int] == front@);
        let list = members(front);
        let ghost before = seen@;
        let mut i: usize = 0;
        while i < list.len()
            invariant
                i <= list.len(),
                list@.to_set() == front@,
                forall|p: usize|
                    #[trigger] seen@.contains(p) <==> before.contains(p) || exists|j: int|
                        0 <= j < i && list@[j] == p,
            decreases list.len() - i,
        {
            seen.insert(list[i]);
            i += 1;
        }
        assert forall|p: usize| #[trigger] seen@.contains(p) <==> exists|i: int|
            0 <= i < k + 1 && (#[trigger] sets[i]).contains(p) by {
            if seen@.contains(p) {
                if before.contains(p) {
                } else {
                    assert(list@.contains(p));
                    assert(list@.to_set().contains(p));
                    assert(sets[k as int].contains(p));
                }
            }
            if exists|i: int| 0 <= i < k + 1 && (#[trigger] sets[i]).contains(p) {
                let i = choose|i: int| 0 <= i < k + 1 && (#[trigger] sets[i]).contains(p);
                if i == k {
                    assert(list@.to_set().contains(p));
                    assert(list@.contains(p));
                } else {
                    assert(before.contains(p));
                }
            }
        }
        k += 1;
    }
    let list = members(&seen);
    assert forall|p: usize| #[trigger] list@.contains(p) <==> on_some_front(sets, p) by {
        assert(list@.contains(p) == list@.to_set().contains(p));
    }
    list
}

fn score_of(scores: Option<&Vec<Score>>, p: ProgramIdx) -> (s: Score)
    ensures
        s == rank_score(
            match scores {
                Some(v) => Some(v@),
                None => None,
            },
            p,
        ),
{
    match scores {
        Some(v) => if p < v.len() {
            v[p]
        } else {
            Score::one()
        },
        None => Score::one(),
    }
}

/// The scores as a sequence.
pub open spec fn score_list(scores: Option<&Vec<Score>>) -> Option<Seq<Score>> {
    match scores {
        Some(v) => Some(v@),
        None => None,
    }
}

/// The programs of `list`, the weakest first; of two that score the same, the
/// one with the smaller index.
fn weakest_first(list: &Vec<ProgramIdx>, scores: Option<&Vec<Score>>) -> (order: Vec<ProgramIdx>)
    requires
        list@.no_duplicates(),
    ensures
        order@.no_duplicates(),
        forall|p: usize| #[trigger] order@.contains(p) <==> list@.contains(p),
        all_numbers(score_list(scores), order@) ==> forall|i: int, j: int|
            0 <= i < j < order@.len() ==> tried_before(
                score_list(scores),
                #[trigger] order@[i],
                #[trigger] order@[j],
            ),
{
    let ghost sc = score_list(scores);
    let mut order: Vec<usize> = Vec::new();
    let mut n: usize = 0;
    while n < list.len()
        invariant
            n <= list.len(),
            list@.no_duplicates(),
            sc == score_list(scores),
            order@.no_duplicates(),
            forall|p: usize|
                #[trigger] order@.contains(p) <==> exists|j: int| 0 <= j < n && list@[j] == p,
            all_numbers(sc, order@) ==> forall|i: int, j: int|
                0 <= i < j < order@.len() ==> tried_before(
                    sc,
                    #[trigger] order@[i],
                    #[trigger] order@[j],
                ),
        decreases list.len() - n,
    {
        let p: usize = list[n];
        let sp = score_of(scores, p);
        let mut i: usize = 0;
        while i < order.len() && !later(order[i], score_of(scores, order[i]), p, sp)
            invariant
                i <= order@.len(),
                sc == score_list(scores),
                sp == rank_score(sc, p),
                forall|j: int|
                    0 <= j < i ==> !comes_later(
                        #[trigger] order@[j],
                        rank_score(sc, order@[j]),
                        p,
                        sp,
                    ),
            decreases order@.len() - i,
        {
            i += 1;
        }
        let ghost before = order@;
        proof {
            if before.contains(p) {
                let j = choose|j: int| 0 <= j < n && list@[j] == p;
                assert(list@[j] == list@[n as int]);
            }
        }
        order.insert(i, p);
        proof {
            assert(order@ == before.insert(i as int, p));
            assert forall|a: int, b: int| 0 <= a < b < order@.len() implies order@[a]
                != order@[b] by {
                if a == i {
                    assert(before.contains(before[b - 1]));
                } else if b == i {
                    assert(before.contains(before[a]));
                }
            }
            assert forall|q: usize| #[trigger] order@.contains(q) <==> exists|j: int|
                0 <= j < n + 1 && list@[j] == q by {
                if order@.contains(q) {
                    let a = choose|a: int| 0 <= a < order@.len() && order@[a] == q;
                    if a == i {
                        assert(list@[n as int] == q);
                    } else if a < i {
                        assert(before.contains(before[a]));
                    } else {
                        assert(before.contains(before[a - 1]));
                    }
                }
                if exists|j: int| 0 <= j < n + 1 && list@[j] == q {
                    let j = choose|j: int| 0 <= j < n + 1 && list@[j] == q;
                    if j == n {
                        assert(order@[i as int] == q);
                    } else {
                        assert(before.contains(q));
                        let a = choose|a: int| 0 <= a < before.len() && before[a] == q;
                        if a < i {
                            assert(order@[a] == q);
                        } else {
                            assert(order@[a + 1] == q);
                        }
                    }
                }
            }
            if all_numbers(sc, order@) {
                assert forall|k: int| 0 <= k < before.len() implies !rank_score(
                    sc,
                    #[trigger] before[k],
                ).nan() by {
                    if k < i {
                        assert(order@[k] == before[k]);
                    } else {
                        assert(order@[k + 1] == before[k]);
                    }
                }
                assert(!rank_score(sc, order@[i as int]).nan());
                assert(all_numbers(sc, before));
                assert forall|a: int, b: int| 0 <= a < b < order@.len() implies tried_before(
                    sc,
                    #[trigger] order@[a],
                    #[trigger] order@[b],
                ) by {
                    if a < i && b == i {
                        assert(order@[a] == before[a]);
                        assert(before.contains(before[a]));
                        assert(!comes_later(before[a], rank_score(sc, before[a]), p, sp));
                    } else if a == i && b > i {
                        assert(order@[b] == before[b - 1]);
                        let q = before[i as int];
                        assert(order@[i + 1] == q);
                        assert(!rank_score(sc, q).nan());
                        assert(comes_later(q, rank_score(sc, q), p, sp));
                        assert(tried_before(sc, p, q));
                        if b - 1 > i {
                            assert(tried_before(sc, q, before[b - 1]));
                        }
                    } else {
                        let a0 = if a < i { a } else { a - 1 };
                        let b0 = if b < i { b } else { b - 1 };
                        assert(tried_before(sc, before[a0], before[b0]));
                    }
                }
            }
        }
        n += 1;
    }
    assert forall|p: usize| #[trigger] order@.contains(p) <==> list@.contains(p) by {}
    order
}

/// Whether `q` comes after `p` in the order of elimination.
pub open spec fn comes_later(q: usize, sq: Score, p: usize, sp: Score) -> bool {
    sq.above(sp) || (!sp.above(sq) && q > p)
}

fn later(q: ProgramIdx, sq: Score, p: ProgramIdx, sp: Score) -> (b: bool)
    ensures
        b == comes_later(q, sq, p, sp),
{
    sq.exceeds(&sp) || (!sp.exceeds(&sq) && q > p)
}

/// The survivors of the elimination, and the order in which it was made.
fn eliminate<Key: MapKey>(
    frontier: &KeyMap<Key, HashSet<ProgramIdx>>,
    scores: Option<&Vec<Score>>,
) -> (r: (HashSet<ProgramIdx>, Vec<ProgramIdx>))
    requires
        frontier.wf(),
    ensures
        elimination_order(r.1@, fronts(*frontier), score_list(scores)),
        r.0@ == final_survivors(r.1@, fronts(*frontier)),
{
    let ghost sets = fronts(*frontier);
    let list = programs_of(frontier);
    let order = weakest_first(&list, scores);
    let mut left = set_of(&order);
    let mut n: usize = 0;
    while n < order.len()
        invariant
            frontier.wf(),
            sets == fronts(*frontier),
            n <= order.len(),
            left@ == survivors(order@, sets, n as int),
        decreases order.len() - n,
    {
        let y: usize = order[n];
        let present = left.remove(&y);
        assert(left@ =~= survivors(order@, sets, n as int).remove(y));
        if !is_dominated(y, &left, frontier) && present {
            left.insert(y);
        }
        assert(left@ =~= survivors(order@, sets, n + 1));
        n += 1;
    }
    (left, order)
}

/// Whether `after` is `before` with every front restricted to the programs
/// that survive an elimination in some order, the weakest tried first.
pub open spec fn restricted<K: MapKey>(
    before: KeyMap<K, HashSet<ProgramIdx>>,
    after: KeyMap<K, HashSet<ProgramIdx>>,
    order: Seq<usize>,
) -> bool {
    &&& after.wf()
    &&& after.key_seq() == before.key_seq()
    &&& forall|k: int|
        0 <= k < fronts(before).len() ==> #[trigger] fronts(after)[k] == fronts(before)[k].intersect(
            final_survivors(order, fronts(before)),
        )
}

/// Remove the dominated programs from the frontier: the programs are tried in
/// ascending order of their scores, and one goes where each of its fronts has
/// another program that has not gone. Without scores all programs rank alike.
pub fn remove_dominated_programs<Key: MapKey>(
    pareto_front_mapping: &KeyMap<Key, HashSet<ProgramIdx>>,
    scores: Option<&Vec<Score>>,
) -> (filtered: KeyMap<Key, HashSet<ProgramIdx>>)
    requires
        pareto_front_mapping.wf(),
    ensures
        exists|order: Seq<usize>|
            #[trigger] elimination_order(order, fronts(*pareto_front_mapping), score_list(scores))
                && restricted(*pareto_front_mapping, filtered, order),
        forall|k: int|
            0 <= k < fronts(*pareto_front_mapping).len() && (exists|p: usize|
                (#[trigger] fronts(*pareto_front_mapping)[k]).contains(p)) ==> exists|p: usize|
                fronts(filtered)[k].contains(p),
{
    let (left, order) = eliminate(pareto_front_mapping, scores);
    let filtered = restrict(pareto_front_mapping, &left);
    proof {
        let sets = fronts(*pareto_front_mapping);
        assert(restricted(*pareto_front_mapping, filtered, order@));
        assert forall|k: int|
            0 <= k < sets.len() && (exists|p: usize|
                (#[trigger] sets[k]).contains(p)) implies exists|p: usize|
            fronts(filtered)[k].contains(p) by {
            fronts_keep_a_survivor(order@, sets, order@.len() as int, k);
            let p = choose|p: usize|
                sets[k].contains(p) && final_survivors(order@, sets).contains(p);
            assert(fronts(filtered)[k].contains(p));
        }
    }
    filtered
}

fn restrict<Key: MapKey>(
    frontier: &KeyMap<Key, HashSet<ProgramIdx>>,
    keep: &HashSet<ProgramIdx>,
) -> (filtered: KeyMap<Key, HashSet<ProgramIdx>>)
    requires
        frontier.wf(),
    ensures
        filtered.wf(),
        filtered.key_seq() == frontier.key_seq(),
        forall|k: int|
            0 <= k < fronts(*frontier).len() ==> #[trigger] fronts(filtered)[k] == fronts(
                *frontier,
            )[k].intersect(keep@),
{
    let n: usize = frontier.len();
    let mut filtered: KeyMap<Key, HashSet<usize>> = KeyMap::new();
    let mut k: usize = 0;
    assert(filtered.key_seq() =~= frontier.key_seq().take(0));
    while k < n
        invariant
            frontier.wf(),
            n == frontier.key_seq().len(),
            k <= n,
            filtered.wf(),
            filtered.key_seq() == frontier.key_seq().take(k as int),
            forall|i: int|
                0 <= i < k ==> (#[trigger] filtered.value_seq()[i])@ == fronts(
                    *frontier,
                )[i].intersect(keep@),
        decreases n - k,
    {
        let both = intersection(frontier.value_at(k), keep);
        let key = frontier.key_at(k).duplicate();
        proof {
            if filtered@.dom().contains(key@) {
                let j = filtered.lemma_position(key@);
                assert(frontier.key_seq()[j] == frontier.key_seq()[k as int]);
            }
        }
        filtered.insert(key, both);
        assert(filtered.key_seq() =~= frontier.key_seq().take(k + 1));
        k += 1;
    }
    assert(filtered.key_seq() =~= frontier.key_seq());
    filtered
}

/// Whether `sets` are the sets of `frontier`, in the order of `keys`.
pub open spec fn lists_fronts<K>(
    keys: Seq<K>,
    sets: Seq<Set<usize>>,
    frontier: Map<K, Set<usize>>,
) -> bool {
    &&& keys.no_duplicates()
    &&& keys.len() == sets.len()
    &&& forall|k: K| #[trigger] keys.contains(k) <==> frontier.dom().contains(k)
    &&& forall|i: int| 0 <= i < keys.len() ==> #[trigger] sets[i] == frontier[keys[i]]
}

/// Whether `list` has the programs that are left of `frontier` once the
/// dominated ones were removed, in ascending order.
pub open spec fn non_dominated<K>(
    list: Seq<usize>,
    frontier: Map<K, Set<usize>>,
    scores: Seq<Score>,
) -> bool {
    &&& ascending(list)
    &&& exists|keys: Seq<K>, sets: Seq<Set<usize>>, order: Seq<usize>|
        {
            &&& #[trigger] lists_fronts(keys, sets, frontier)
            &&& #[trigger] elimination_order(order, sets, Some(scores))
            &&& list.to_set() == final_survivors(order, sets)
        }
}

/// Whether `p` is left of `frontier` once the dominated programs were removed.
pub open spec fn survives<K>(p: usize, frontier: Map<K, Set<usize>>, scores: Seq<Score>) -> bool {
    exists|keys: Seq<K>, sets: Seq<Set<usize>>, order: Seq<usize>|
        {
            &&& #[trigger] lists_fronts(keys, sets, frontier)
            &&& #[trigger] elimination_order(order, sets, Some(scores))
            &&& final_survivors(order, sets).contains(p)
        }
}

/// Whether no front of `frontier` has a program.
pub open spec fn no_program<K>(frontier: Map<K, Set<usize>>) -> bool {
    forall|k: K, p: usize|
        frontier.dom().contains(k) ==> !(#[trigger] frontier[k].contains(p))
}

/// A program that is left of a frontier is on it.
pub proof fn survivor_is_on_the_frontier<K>(
    p: usize,
    frontier: Map<K, Set<usize>>,
    scores: Seq<Score>,
)
    requires
        survives(p, frontier, scores),
    ensures
        exists|k: K| frontier.dom().contains(k) && (#[trigger] frontier[k]).contains(p),
{
    let (keys, sets, order) = choose|keys: Seq<K>, sets: Seq<Set<usize>>, order: Seq<usize>|
        {
            &&& #[trigger] lists_fronts(keys, sets, frontier)
            &&& #[trigger] elimination_order(order, sets, Some(scores))
            &&& final_survivors(order, sets).contains(p)
        };
    lemma_survivors_within(order, sets, order.len() as int);
    assert(order.to_set().contains(p));
    assert(order.contains(p));
    let i = choose|i: int| 0 <= i < sets.len() && (#[trigger] sets[i]).contains(p);
    assert(keys.contains(keys[i]));
    assert(sets[i] == frontier[keys[i]]);
    assert(frontier.dom().contains(keys[i]) && frontier[keys[i]].contains(p));
}

/// The sets of a frontier mapping are listed in the order of its keys.
pub proof fn lemma_lists_fronts<K: MapKey>(m: KeyMap<K, HashSet<ProgramIdx>>)
    requires
        m.wf(),
    ensures
        lists_fronts(m.key_seq(), fronts(m), sets_view(m)),
{
    assert forall|i: int| 0 <= i < m.key_seq().len() implies #[trigger] fronts(m)[i]
        == sets_view(m)[m.key_seq()[i]] by {
        m.lemma_entry(i);
    }
}

/// The programs that are left once the dominated ones were removed are on the
/// fronts.
pub proof fn non_dominated_are_on_the_frontier<K>(
    list: Seq<usize>,
    frontier: Map<K, Set<usize>>,
    scores: Seq<Score>,
    p: usize,
)
    requires
        non_dominated(list, frontier, scores),
        list.contains(p),
    ensures
        exists|k: K| frontier.dom().contains(k) && (#[trigger] frontier[k]).contains(p),
{
    let (keys, sets, order) = choose|keys: Seq<K>, sets: Seq<Set<usize>>, order: Seq<usize>|
        {
            &&& #[trigger] lists_fronts(keys, sets, frontier)
            &&& #[trigger] elimination_order(order, sets, Some(scores))
            &&& list.to_set() == final_survivors(order, sets)
        };
    assert(list.to_set().contains(p));
    lemma_survivors_within(order, sets, order.len() as int);
    assert(order.to_set().contains(p));
    assert(order.contains(p));
    let i = choose|i: int| 0 <= i < sets.len() && (#[trigger] sets[i]).contains(p);
    assert(keys.contains(keys[i]));
    assert(sets[i] == frontier[keys[i]]);
    assert(frontier.dom().contains(keys[i]) && frontier[keys[i]].contains(p));
}

/// Strictly ascending.
pub open spec fn ascending(list: Seq<usize>) -> bool {
    forall|i: int, j: int| 0 <= i < j < list.len() ==> list[i] < list[j]
}

/// The sorted list of the programs that no others dominate.
pub fn find_dominator_programs<Key: MapKey>(
    pareto_front_programs: &KeyMap<Key, HashSet<ProgramIdx>>,
    scores: &Vec<Score>,
) -> (list: Vec<ProgramIdx>)
    requires
        pareto_front_programs.wf(),
    ensures
        ascending(list@),
        exists|order: Seq<usize>|
            #[trigger] elimination_order(order, fronts(*pareto_front_programs), Some(scores@))
                && list@.to_set() == final_survivors(order, fronts(*pareto_front_programs)),
        non_dominated(
            list@,
            sets_view(*pareto_front_programs),
            scores@,
        ),
{
    let (left, order) = eliminate(pareto_front_programs, Some(scores));
    let found = members(&left);
    let list = sorted(&found);
    assert(list@.to_set() =~= found@.to_set()) by {
        assert forall|p: usize| list@.to_set().contains(p) == found@.to_set().contains(p) by {
            assert(list@.contains(p) == found@.contains(p));
        }
    }
    assert(elimination_order(order@, fronts(*pareto_front_programs), Some(scores@)));
    proof {
        lemma_lists_fronts(*pareto_front_programs);
    }
    list
}

/// The members of `list`, which are distinct, in ascending order.
pub fn sorted(list: &Vec<ProgramIdx>) -> (out: Vec<ProgramIdx>)
    requires
        list@.no_duplicates(),
    ensures
        ascending(out@),
        forall|p: usize| #[trigger] out@.contains(p) <==> list@.contains(p),
{
    let mut out: Vec<usize> = Vec::new();
    let mut n: usize = 0;
    while n < list.len()
        invariant
            n <= list.len(),
            list@.no_duplicates(),
            ascending(out@),
            forall|p: usize|
                #[trigger] out@.contains(p) <==> exists|j: int| 0 <= j < n && list@[j] == p,
        decreases list.len() - n,
    {
        let p: usize = list[n];
        let mut i: usize = 0;
        while i < out.len() && out[i] < p
            invariant
                i <= out@.len(),
                forall|j: int| 0 <= j < i ==> out@[j] < p,
            decreases out@.len() - i,
        {
            i += 1;
        }
        let ghost before = out@;
        proof {
            if before.contains(p) {
                let j = choose|j: int| 0 <= j < n && list@[j] == p;
                assert(list@[j] == list@[n as int]);
            }
        }
        out.insert(i, p);
        proof {
            assert(out@ == before.insert(i as int, p));
            assert forall|a: int, b: int| 0 <= a < b < out@.len() implies out@[a] < out@[b] by {
                if a == i {
                    assert(before.contains(before[i as int]));
                    assert(before[i as int] <= before[b - 1]);
                }
            }
            assert forall|q: usize| #[trigger] out@.contains(q) <==> exists|j: int|
                0 <= j < n + 1 && list@[j] == q by {
                if out@.contains(q) {
                    let a = choose|a: int| 0 <= a < out@.len() && out@[a] == q;
                    if a == i {
                        assert(list@[n as int] == q);
                    } else if a < i {
                        assert(before.contains(before[a]));
                    } else {
                        assert(before.contains(before[a - 1]));
                    }
                }
                if exists|j: int| 0 <= j < n + 1 && list@[j] == q {
                    let j = choose|j: int| 0 <= j < n + 1 && list@[j] == q;
                    if j == n {
                        assert(out@[i as int] == q);
                    } else {
                        assert(before.contains(q));
                        let a = choose|a: int| 0 <= a < before.len() && before[a] == q;
                        if a < i {
                            assert(out@[a] == q);
                        } else {
                            assert(out@[a + 1] == q);
                        }
                    }
                }
            }
        }
        n += 1;
    }
    out
}

/// On how many of the first `n` fronts `p` is.
pub open spec fn coverage(sets: Seq<Set<usize>>, p: usize, n: int) -> nat
    decreases n,
{
    if n <= 0 {
        0
    } else {
        coverage(sets, p, n - 1) + if sets[n - 1].contains(p) {
            1nat
        } else {
            0
        }
    }
}

/// Whether `list` names every program once for each front that it is on.
pub open spec fn weighted_by_coverage(list: Seq<usize>, sets: Seq<Set<usize>>) -> bool {
    forall|p: usize|
        #[trigger] list.to_multiset().count(p) == coverage(sets, p, sets.len() as int)
}

/// No element comes before a smaller one.
pub open spec fn nondecreasing(list: Seq<usize>) -> bool {
    forall|i: int, j: int| 0 <= i < j < list.len() ==> list[i] <= list[j]
}

/// On how many fronts the program is.
fn count_fronts<Key: MapKey>(frontier: &KeyMap<Key, HashSet<ProgramIdx>>, p: ProgramIdx) -> (n:
    usize)
    requires
        frontier.wf(),
    ensures
        n == coverage(fronts(*frontier), p, fronts(*frontier).len() as int),
{
    let ghost sets = fronts(*frontier);
    let len: usize = frontier.len();
    let mut n: usize = 0;
    let mut k: usize = 0;
    while k < len
        invariant
            frontier.wf(),
            sets == fronts(*frontier),
            len == sets.len(),
            k <= len,
            n <= k,
            n == coverage(sets, p, k as int),
        decreases len - k,
    {
        assert(sets[k as int] == frontier.value_seq()[k as int]@);
        if frontier.value_at(k).contains(&p) {
            n += 1;
        }
        k += 1;
    }
    n
}

/// A list in which every program stands once for each front that it is on, in
/// ascending order.
pub fn sampling_list<Key: MapKey>(frontier: &KeyMap<Key, HashSet<ProgramIdx>>) -> (list: Vec<
    ProgramIdx,
>)
    requires
        frontier.wf(),
    ensures
        nondecreasing(list@),
        weighted_by_coverage(list@, fronts(*frontier)),
        forall|p: usize| #[trigger] list@.contains(p) <==> on_some_front(fronts(*frontier), p),
{
    broadcast use vstd::seq_lib::group_to_multiset_ensures;

    let ghost sets = fronts(*frontier);
    let ghost n = sets.len() as int;
    let programs = sorted(&programs_of(frontier));
    let mut list: Vec<usize> = Vec::new();
    let mut i: usize = 0;
    while i < programs.len()
        invariant
            frontier.wf(),
            sets == fronts(*frontier),
            n == sets.len(),
            i <= programs@.len(),
            ascending(programs@),
            nondecreasing(list@),
            forall|j: int| 0 <= j < list@.len() ==> i > 0 && (#[trigger] list@[j]) <= programs@[i
                - 1],
            forall|p: usize| #[trigger]
                list@.to_multiset().count(p) == if programs@.take(i as int).contains(p) {
                    coverage(sets, p, n)
                } else {
                    0
                },
        decreases programs@.len() - i,
    {
        let p: usize = programs[i];
        let c: usize = count_fronts(frontier, p);
        let ghost before = list@;
        let ghost done = programs@.take(i as int);
        let mut m: usize = 0;
        proof {
            if done.contains(p) {
                let j = choose|j: int| 0 <= j < done.len() && done[j] == p;
                assert(programs@[j] < programs@[i as int]);
            }
            if i > 0 {
                assert(programs@[i - 1] < p);
            }
        }
        while m < c
            invariant
                m <= c,
                nondecreasing(list@),
                forall|j: int| 0 <= j < list@.len() ==> (#[trigger] list@[j]) <= p,
                !done.contains(p),
                forall|q: usize| #[trigger]
                    before.to_multiset().count(q) == if done.contains(q) {
                        coverage(sets, q, n)
                    } else {
                        0
                    },
                forall|q: usize| #[trigger]
                    list@.to_multiset().count(q) == if q == p {
                        m as nat
                    } else {
                        before.to_multiset().count(q)
                    },
            decreases c - m,
        {
            let ghost part = list@;
            list.push(p);
            proof {
                vstd::seq_lib::to_multiset_build(part, p);
            }
            m += 1;
        }
        proof {
            let more = programs@.take(i + 1);
            assert(more =~= done.push(p));
            assert forall|q: usize| #[trigger] list@.to_multiset().count(q) == if more.contains(q) {
                coverage(sets, q, n)
            } else {
                0
            } by {
                if q == p {
                    assert(more[i as int] == p);
                } else {
                    assert(more.contains(q) <==> done.contains(q)) by {
                        if done.contains(q) {
                            let j = choose|j: int| 0 <= j < done.len() && done[j] == q;
                            assert(more[j] == q);
                        }
                        if more.contains(q) {
                            let j = choose|j: int| 0 <= j < more.len() && more[j] == q;
                            assert(done[j] == q);
                        }
                    }
                }
            }
        }
        i += 1;
    }
    proof {
        assert(programs@.take(i as int) =~= programs@);
        assert forall|p: usize| #[trigger] list@.to_multiset().count(p) == coverage(sets, p, n) by {
            lemma_coverage_positive(sets, p, n);
            assert(programs@.contains(p) <==> on_some_front(sets, p));
        }
        assert forall|p: usize| #[trigger] list@.contains(p) <==> on_some_front(sets, p) by {
            lemma_coverage_positive(sets, p, n);
            list@.to_multiset_ensures();
            assert(list@.to_multiset().count(p) == coverage(sets, p, n));
        }
    }
    list
}

proof fn lemma_coverage_positive(sets: Seq<Set<usize>>, p: usize, n: int)
    requires
        0 <= n <= sets.len(),
    ensures
        coverage(sets, p, n) > 0 <==> exists|k: int|
            0 <= k < n && (#[trigger] sets[k]).contains(p),
    decreases n,
{
    if n > 0 {
        lemma_coverage_positive(sets, p, n - 1);
        if sets[n - 1].contains(p) {
            assert(coverage(sets, p, n) > 0);
        }
    }
}

/// Whether no front has a program.
pub open spec fn all_empty(sets: Seq<Set<usize>>) -> bool {
    forall|k: int, p: usize| 0 <= k < sets.len() ==> !(#[trigger] sets[k].contains(p))
}

/// Whether `list` is what is sampled from: it names, in ascending order, every
/// program that is left once the dominated ones were removed, once for each
/// front that it is on.
pub open spec fn sampled_from<K>(
    list: Seq<usize>,
    frontier: Map<K, Set<usize>>,
    scores: Seq<Score>,
) -> bool {
    &&& nondecreasing(list)
    &&& exists|keys: Seq<K>, sets: Seq<Set<usize>>, order: Seq<usize>|
        {
            &&& #[trigger] lists_fronts(keys, sets, frontier)
            &&& #[trigger] elimination_order(order, sets, Some(scores))
            &&& weighted_survivors(list, sets, final_survivors(order, sets))
        }
}

/// Whether `list` names every program of `left` once for each front that it is
/// on, and no other.
pub open spec fn weighted_survivors(
    list: Seq<usize>,
    sets: Seq<Set<usize>>,
    left: Set<usize>,
) -> bool {
    forall|p: usize| #[trigger]
        list.to_multiset().count(p) == if left.contains(p) {
            coverage(sets, p, sets.len() as int)
        } else {
            0
        }
}

proof fn lemma_coverage_left(
    sets: Seq<Set<usize>>,
    filtered: Seq<Set<usize>>,
    left: Set<usize>,
    p: usize,
    n: int,
)
    requires
        0 <= n <= sets.len(),
        filtered.len() == sets.len(),
        forall|k: int| 0 <= k < sets.len() ==> #[trigger] filtered[k] == sets[k].intersect(left),
    ensures
        coverage(filtered, p, n) == if left.contains(p) {
            coverage(sets, p, n)
        } else {
            0
        },
    decreases n,
{
    if n > 0 {
        lemma_coverage_left(sets, filtered, left, p, n - 1);
        assert(filtered[n - 1] == sets[n - 1].intersect(left));
    }
}

/// The list that is sampled from.
pub fn weighted_programs<Key: MapKey>(
    pareto_front_programs: &KeyMap<Key, HashSet<ProgramIdx>>,
    scores: &Vec<Score>,
) -> (list: Vec<ProgramIdx>)
    requires
        pareto_front_programs.wf(),
    ensures
        sampled_from(
            list@,
            sets_view(*pareto_front_programs),
            scores@,
        ),
        list@.len() == 0 <==> no_program(
            sets_view(*pareto_front_programs),
        ),
{
    let ghost sets = fronts(*pareto_front_programs);
    let ghost frontier = sets_view(*pareto_front_programs);
    let ghost keys = pareto_front_programs.key_seq();
    let filtered = remove_dominated_programs(pareto_front_programs, Some(scores));
    let list = sampling_list(&filtered);
    proof {
        lemma_lists_fronts(*pareto_front_programs);
        let order = choose|order: Seq<usize>|
            #[trigger] elimination_order(order, sets, Some(scores@)) && restricted(
                *pareto_front_programs,
                filtered,
                order,
            );
        let left = final_survivors(order, sets);
        assert forall|p: usize| #[trigger] list@.to_multiset().count(p) == if left.contains(p) {
            coverage(sets, p, sets.len() as int)
        } else {
            0
        } by {
            lemma_coverage_left(sets, fronts(filtered), left, p, sets.len() as int);
        }
        assert(weighted_survivors(list@, sets, left));
        if list@.len() == 0 {
            assert forall|k: Key::V, p: usize| frontier.dom().contains(k) implies !(
            #[trigger] frontier[k].contains(p)) by {
                assert(keys.contains(k));
                let i = choose|i: int| 0 <= i < keys.len() && keys[i] == k;
                assert(sets[i] == frontier[k]);
                if sets[i].contains(p) {
                    let q = choose|q: usize| fronts(filtered)[i].contains(q);
                    assert(on_some_front(fronts(filtered), q));
                    assert(list@.contains(q));
                }
            }
        }
        if no_program(frontier) && list@.len() > 0 {
            assert(list@.contains(list@[0]));
            let k = choose|k: int|
                0 <= k < fronts(filtered).len() && (#[trigger] fronts(filtered)[k]).contains(
                    list@[0],
                );
            assert(sets[k].contains(list@[0]));
            assert(keys.contains(keys[k]));
            assert(frontier[keys[k]].contains(list@[0]));
        }
    }
    list
}

/// What is sampled is left once the dominated programs were removed.
pub proof fn sampled_programs_survive<K>(
    list: Seq<usize>,
    frontier: Map<K, Set<usize>>,
    scores: Seq<Score>,
    i: int,
)
    requires
        sampled_from(list, frontier, scores),
        0 <= i < list.len(),
    ensures
        survives(list[i], frontier, scores),
{
    let (keys, sets, order) = choose|keys: Seq<K>, sets: Seq<Set<usize>>, order: Seq<usize>|
        {
            &&& #[trigger] lists_fronts(keys, sets, frontier)
            &&& #[trigger] elimination_order(order, sets, Some(scores))
            &&& weighted_survivors(list, sets, final_survivors(order, sets))
        };
    list.to_multiset_ensures();
    assert(list.contains(list[i]));
    assert(list.to_multiset().count(list[i]) > 0);
    assert(final_survivors(order, sets).contains(list[i]));
}

/// The program at a position of the list that is sampled from, if the list is as
/// long.
pub fn program_at<Key: MapKey>(
    pareto_front_programs: &KeyMap<Key, HashSet<ProgramIdx>>,
    scores: &Vec<Score>,
    position: usize,
) -> (r: Option<ProgramIdx>)
    requires
        pareto_front_programs.wf(),
    ensures
        exists|list: Seq<usize>| #[trigger]
            sampled_from(
                list,
                sets_view(*pareto_front_programs),
                scores@,
            ) && r == if position < list.len() {
                Some(list[position as int])
            } else {
                None
            },
{
    let list = weighted_programs(pareto_front_programs, scores);
    if position < list.len() {
        Some(list[position])
    } else {
        None
    }
}

/// Whether `r` is the element at the position that the generator draws of the
/// list, and `after` the generator that is left; an error where the list is
/// empty.
pub open spec fn drawn_from(
    list: Seq<usize>,
    rng: StdRng,
    after: StdRng,
    r: Result<ProgramIdx>,
) -> bool {
    if list.len() == 0 {
        &&& r matches Err(e)
        &&& e is EmptyFrontier
        &&& after == rng
    } else {
        let (position, rest) = drawn_below(rng, list.len() as usize, usize::BITS);
        &&& position < list.len()
        &&& r matches Ok(p)
        &&& p == list[position as int]
        &&& after == rest
    }
}

/// Whether `r` is drawn from the list that is sampled from, and `after` the
/// generator that is left.
pub open spec fn selected<K>(
    frontier: Map<K, Set<usize>>,
    scores: Seq<Score>,
    rng: StdRng,
    after: StdRng,
    r: Result<ProgramIdx>,
) -> bool {
    exists|list: Seq<usize>| #[trigger]
        sampled_from(list, frontier, scores) && drawn_from(list, rng, after, r)
}

/// Whether the generator draws `r` from the list that is sampled from.
pub open spec fn may_select<K>(
    frontier: Map<K, Set<usize>>,
    scores: Seq<Score>,
    rng: StdRng,
    r: Result<ProgramIdx>,
) -> bool {
    exists|after: StdRng| #[trigger] selected(frontier, scores, rng, after, r)
}

/// Sample a program in proportion to the number of fronts that it is on, after
/// the dominated programs were removed.
///
/// # Errors
/// [`GEPAError::EmptyFrontier`] where no front has a program.
pub fn select_program_candidate_from_pareto_front<Key: MapKey>(
    pareto_front_programs: &KeyMap<Key, HashSet<ProgramIdx>>,
    scores: &Vec<Score>,
    rng: &mut StdRng,
) -> (r: Result<ProgramIdx>)
    requires
        pareto_front_programs.wf(),
    ensures
        selected(
            sets_view(*pareto_front_programs),
            scores@,
            *old(rng),
            *final(rng),
            r,
        ),
        match r {
            Ok(p) => survives(
                p,
                sets_view(*pareto_front_programs),
                scores@,
            ),
            Err(e) => e is EmptyFrontier,
        },
        r is Err <==> no_program(sets_view(*pareto_front_programs)),
{
    let list = weighted_programs(pareto_front_programs, scores);
    if list.len() == 0 {
        return Err(GEPAError::EmptyFrontier);
    }
    let position: usize = draw_below(rng, list.len());
    proof {
        sampled_programs_survive(
            list@,
            sets_view(*pareto_front_programs),
            scores@,
            position as int,
        );
    }
    Ok(list[position])
}

/// The index of the first greatest value.
///
/// # Errors
/// [`GEPAError::NoCandidates`] where the list is empty.
pub fn idxmax(lst: &Vec<Score>) -> (r: Result<usize>)
    ensures
        match r {
            Ok(i) => lst@.len() > 0 && i == best_place(lst@, lst@.len() as int),
            Err(e) => e is NoCandidates && lst@.len() == 0,
        },
{
    if lst.len() == 0 {
        return Err(GEPAError::NoCandidates);
    }
    let mut best: usize = 0;
    let mut i: usize = 1;
    while i < lst.len()
        invariant
            1 <= i <= lst.len(),
            best < i,
            best == best_place(lst@, i as int),
        decreases lst.len() - i,
    {
        if lst[i].exceeds(&lst[best]) {
            best = i;
        }
        i += 1;
    }
    Ok(best)
}

} // verus!
