//! Pareto fronts: the best score on each key, and the programs that reach it.
use std::collections::HashSet;

use vstd::prelude::*;

use crate::keyed::{KeyMap, MapKey};
use crate::optimizer::adapter::ObjectiveScores;
use crate::optimizer::data_loader::DataId;
use crate::score::{lowest, Score};
use crate::utils::programs::{copy_set, singleton, ProgramIdx};

verus! {

broadcast use vstd::std_specs::hash::group_hash_axioms;

/// The sets of programs by key.
pub open spec fn sets_view<K: MapKey>(m: KeyMap<K, HashSet<ProgramIdx>>) -> Map<K::V, Set<usize>> {
    m@.map_values(|s: HashSet<usize>| s@)
}

/// The best score on `k` so far: negative infinity where there is none.
pub open spec fn best_on<K>(front: Map<K, Score>, k: K) -> Score {
    if front.dom().contains(k) {
        front[k]
    } else {
        lowest()
    }
}

/// The best scores once a program with the scores `new` was seen.
pub open spec fn raised<K>(front: Map<K, Score>, new: Map<K, Score>) -> Map<K, Score> {
    Map::new(
        |k: K|
            front.dom().contains(k) || (new.dom().contains(k) && new[k].above(best_on(front, k))),
        |k: K|
            if new.dom().contains(k) && new[k].above(best_on(front, k)) {
                new[k]
            } else {
                front[k]
            },
    )
}

/// The programs at the front once program `p` with the scores `new` was seen:
/// on a key where it beats the best score it stands alone, where it equals the
/// best score it joins.
pub open spec fn joined<K>(
    front: Map<K, Score>,
    sets: Map<K, Set<usize>>,
    new: Map<K, Score>,
    p: usize,
) -> Map<K, Set<usize>> {
    Map::new(
        |k: K|
            sets.dom().contains(k) || (new.dom().contains(k) && new[k].at_least(best_on(front, k))),
        |k: K|
            if new.dom().contains(k) && new[k].above(best_on(front, k)) {
                Set::empty().insert(p)
            } else if new.dom().contains(k) && new[k].level(best_on(front, k)) {
                if sets.dom().contains(k) {
                    sets[k].insert(p)
                } else {
                    Set::empty().insert(p)
                }
            } else {
                sets[k]
            },
    )
}

/// One key of the front after program `p` scored `score` on it.
fn raise_one<K: MapKey>(
    front: &mut KeyMap<K, Score>,
    sets: &mut KeyMap<K, HashSet<ProgramIdx>>,
    key: &K,
    score: Score,
    p: ProgramIdx,
)
    requires
        old(front).wf(),
        old(sets).wf(),
    ensures
        final(front).wf(),
        final(sets).wf(),
        final(front)@ == raised(old(front)@, Map::empty().insert(key@, score)),
        sets_view(*final(sets)) == joined(
            old(front)@,
            sets_view(*old(sets)),
            Map::empty().insert(key@, score),
            p,
        ),
{
    let ghost new = Map::<K::V, Score>::empty().insert(key@, score);
    let ghost front0 = front@;
    let ghost sets0 = sets_view(*sets);
    let best = match front.get(key) {
        Some(s) => *s,
        None => Score::neg_infinity(),
    };
    assert(best == best_on(front0, key@));
    if score.exceeds(&best) {
        front.insert(key.duplicate(), score);
        sets.insert(key.duplicate(), singleton(p));
        assert(sets_view(*sets) =~= sets0.insert(key@, Set::empty().insert(p)));
    } else if score.equals(&best) {
        let mut set = match sets.get(key) {
            Some(s) => copy_set(s),
            None => HashSet::new(),
        };
        set.insert(p);
        let ghost view = set@;
        sets.insert(key.duplicate(), set);
        assert(sets_view(*sets) =~= sets0.insert(key@, view));
    }
    assert(front@ =~= raised(front0, new));
    assert(sets_view(*sets) =~= joined(front0, sets0, new, p));
}

/// Raise the front to the scores `new` of program `p`.
pub fn raise_front<K: MapKey>(
    front: &mut KeyMap<K, Score>,
    sets: &mut KeyMap<K, HashSet<ProgramIdx>>,
    new: &KeyMap<K, Score>,
    p: ProgramIdx,
)
    requires
        old(front).wf(),
        old(sets).wf(),
        new.wf(),
    ensures
        final(front).wf(),
        final(sets).wf(),
        final(front)@ == raised(old(front)@, new@),
        sets_view(*final(sets)) == joined(old(front)@, sets_view(*old(sets)), new@, p),
{
    let ghost front0 = front@;
    let ghost sets0 = sets_view(*sets);
    let n: usize = new.len();
    let mut i: usize = 0;
    assert(front@ =~= raised(front0, new.first(0)));
    assert(sets_view(*sets) =~= joined(front0, sets0, new.first(0), p));
    while i < n
        invariant
            front.wf(),
            sets.wf(),
            new.wf(),
            n == new.key_seq().len(),
            i <= n,
            front@ == raised(front0, new.first(i as int)),
            sets_view(*sets) == joined(front0, sets0, new.first(i as int), p),
        decreases n - i,
    {
        let ghost k = new.key_seq()[i as int];
        let ghost part = new.first(i as int);
        let ghost more = new.first(i + 1);
        proof {
            new.lemma_entry(i as int);
            new.lemma_first(i as int);
        }
        let ghost single = Map::<K::V, Score>::empty().insert(k, new.value_seq()[i as int]);
        let ghost f1 = front@;
        let ghost s1 = sets_view(*sets);
        raise_one(front, sets, new.key_at(i), *new.value_at(i), p);
        proof {
            assert(best_on(f1, k) == best_on(front0, k));
            assert(raised(f1, single) =~= raised(front0, more));
            assert(joined(f1, s1, single, p) =~= joined(front0, sets0, more, p));
        }
        i += 1;
    }
    proof {
        new.lemma_all();
    }
}

/// The sets that hold only program 0, one for each key of `m`.
pub fn seed_sets<K: MapKey>(m: &KeyMap<K, Score>) -> (r: KeyMap<K, HashSet<ProgramIdx>>)
    requires
        m.wf(),
    ensures
        r.wf(),
        r.key_seq() == m.key_seq(),
        sets_view(r).dom() == m@.dom(),
        forall|k: K::V| #[trigger]
            m@.dom().contains(k) ==> sets_view(r)[k] == Set::<usize>::empty().insert(0),
{
    let n: usize = m.len();
    let mut r: KeyMap<K, HashSet<usize>> = KeyMap::new();
    let mut i: usize = 0;
    assert(m.key_seq().take(0) =~= r.key_seq());
    while i < n
        invariant
            m.wf(),
            r.wf(),
            n == m.key_seq().len(),
            i <= n,
            r.key_seq() == m.key_seq().take(i as int),
            forall|j: int|
                0 <= j < i ==> (#[trigger] r.value_seq()[j])@ == Set::<usize>::empty().insert(0),
        decreases n - i,
    {
        proof {
            m.lemma_fresh(&r, i as int);
        }
        r.insert(m.key_at(i).duplicate(), singleton(0));
        assert(m.key_seq().take(i + 1) =~= r.key_seq());
        i += 1;
    }
    assert(r.key_seq() =~= m.key_seq());
    proof {
        assert(sets_view(r).dom() =~= m@.dom());
        assert forall|k: K::V| #[trigger] m@.dom().contains(k) implies sets_view(r)[k]
            == Set::<usize>::empty().insert(0) by {
            let p = r.lemma_position(k);
            assert(r.value_seq()[p]@ == Set::<usize>::empty().insert(0));
        }
    }
    r
}

/// A copy of sets of programs by key.
pub fn copy_sets<K: MapKey>(m: &KeyMap<K, HashSet<ProgramIdx>>) -> (r: KeyMap<
    K,
    HashSet<ProgramIdx>,
>)
    requires
        m.wf(),
    ensures
        r.wf(),
        r.key_seq() == m.key_seq(),
        sets_view(r) == sets_view(*m),
{
    let n: usize = m.len();
    let mut r: KeyMap<K, HashSet<usize>> = KeyMap::new();
    let mut i: usize = 0;
    assert(m.key_seq().take(0) =~= r.key_seq());
    while i < n
        invariant
            m.wf(),
            r.wf(),
            n == m.key_seq().len(),
            i <= n,
            r.key_seq() == m.key_seq().take(i as int),
            forall|j: int| 0 <= j < i ==> (#[trigger] r.value_seq()[j])@ == m.value_seq()[j]@,
        decreases n - i,
    {
        proof {
            m.lemma_fresh(&r, i as int);
        }
        r.insert(m.key_at(i).duplicate(), copy_set(m.value_at(i)));
        assert(m.key_seq().take(i + 1) =~= r.key_seq());
        i += 1;
    }
    proof {
        assert(r.key_seq() =~= m.key_seq());
        assert forall|k: K::V| #[trigger] sets_view(r).dom().contains(k) implies sets_view(r)[k]
            == sets_view(*m)[k] by {
            let p = r.lemma_position(k);
            m.lemma_entry(p);
            assert(r.value_seq()[p]@ == m.value_seq()[p]@);
        }
        assert(sets_view(r) =~= sets_view(*m));
    }
    r
}

/// The objective scores of every example, by example and objective.
pub open spec fn flat_scores<Id: DataId>(rows: KeyMap<Id, ObjectiveScores>) -> Map<
    (Id::V, Seq<char>),
    Score,
> {
    Map::new(
        |k: (Id::V, Seq<char>)| rows@.dom().contains(k.0) && rows@[k.0]@.dom().contains(k.1),
        |k: (Id::V, Seq<char>)| rows@[k.0]@[k.1],
    )
}

/// Whether the rows are maps.
pub open spec fn all_rows_wf<Id: DataId>(rows: KeyMap<Id, ObjectiveScores>) -> bool {
    &&& rows.wf()
    &&& forall|i: int| 0 <= i < rows.value_seq().len() ==> (#[trigger] rows.value_seq()[i]).wf()
}

/// The objective scores of every example as one map.
pub fn flatten<Id: DataId>(rows: &KeyMap<Id, ObjectiveScores>) -> (flat: KeyMap<
    (Id, String),
    Score,
>)
    requires
        all_rows_wf(*rows),
    ensures
        flat.wf(),
        flat@ == flat_scores(*rows),
        forall|id: Id::V, name: Seq<char>| #[trigger]
            flat@.dom().contains((id, name)) <==> rows@.dom().contains(id)
                && rows@[id]@.dom().contains(name),
        forall|id: Id::V, name: Seq<char>| #[trigger]
            flat@.dom().contains((id, name)) ==> flat@[(id, name)] == rows@[id]@[name],
{
    let mut flat: KeyMap<(Id, String), Score> = KeyMap::new();
    let n: usize = rows.len();
    let mut i: usize = 0;
    while i < n
        invariant
            all_rows_wf(*rows),
            n == rows.key_seq().len(),
            i <= n,
            flat.wf(),
            forall|k: (Id::V, Seq<char>)| #[trigger]
                flat@.dom().contains(k) <==> rows.key_seq().take(i as int).contains(k.0)
                    && flat_scores(*rows).dom().contains(k),
            forall|k: (Id::V, Seq<char>)| #[trigger]
                flat@.dom().contains(k) ==> flat@[k] == flat_scores(*rows)[k],
        decreases n - i,
    {
        let row = rows.value_at(i);
        let ghost id = rows.key_seq()[i as int];
        let ghost before = flat@;
        proof {
            rows.lemma_entry(i as int);
            assert(rows.value_seq()[i as int].wf());
        }
        let m: usize = row.len();
        let mut j: usize = 0;
        while j < m
            invariant
                all_rows_wf(*rows),
                i < rows.key_seq().len(),
                id == rows.key_seq()[i as int],
                *row == rows.value_seq()[i as int],
                rows@.dom().contains(id),
                rows@[id] == *row,
                row.wf(),
                m == row.key_seq().len(),
                j <= m,
                flat.wf(),
                forall|k: (Id::V, Seq<char>)| #[trigger]
                    flat@.dom().contains(k) <==> before.dom().contains(k) || (k.0 == id
                        && row.key_seq().take(j as int).contains(k.1)),
                forall|k: (Id::V, Seq<char>)| #[trigger]
                    flat@.dom().contains(k) ==> flat@[k] == if k.0 == id
                        && row.key_seq().take(j as int).contains(k.1) {
                        row@[k.1]
                    } else {
                        before[k]
                    },
            decreases m - j,
        {
            let ghost name = row.key_seq()[j as int];
            let ghost old_flat = flat@;
            proof {
                row.lemma_entry(j as int);
                let t0 = row.key_seq().take(j as int);
                let t1 = row.key_seq().take(j + 1);
                assert(t1 =~= t0.push(name));
                assert forall|x: Seq<char>| t1.contains(x) <==> t0.contains(x) || x == name by {
                    if t0.contains(x) {
                        let q = choose|q: int| 0 <= q < t0.len() && t0[q] == x;
                        assert(t1[q] == x);
                    }
                    if x == name {
                        assert(t1[j as int] == x);
                    }
                }
            }
            flat.insert((rows.key_at(i).duplicate(), row.key_at(j).duplicate()), *row.value_at(j));
            assert(flat@ == old_flat.insert((id, name), row@[name]));
            j += 1;
        }
        proof {
            assert(row.key_seq().take(m as int) =~= row.key_seq());
            let t0 = rows.key_seq().take(i as int);
            let t1 = rows.key_seq().take(i + 1);
            assert(t1 =~= t0.push(id));
            assert forall|x: Id::V| t1.contains(x) <==> t0.contains(x) || x == id by {
                if t0.contains(x) {
                    let q = choose|q: int| 0 <= q < t0.len() && t0[q] == x;
                    assert(t1[q] == x);
                }
                if x == id {
                    assert(t1[i as int] == x);
                }
            }
            assert forall|k: (Id::V, Seq<char>)| #[trigger] flat@.dom().contains(k) implies flat@[k]
                == flat_scores(*rows)[k] by {
                if k.0 == id && row.key_seq().contains(k.1) {
                } else {
                    assert(before.dom().contains(k));
                }
            }
        }
        i += 1;
    }
    proof {
        assert(rows.key_seq().take(n as int) =~= rows.key_seq());
        assert(flat@ =~= flat_scores(*rows));
    }
    flat
}

/// Every score is finite.
pub open spec fn all_finite<K>(scores: Map<K, Score>) -> bool {
    forall|k: K| #[trigger] scores.dom().contains(k) ==> scores[k].finite()
}

/// Whether `front` and `sets` are the Pareto front of programs with the scores
/// `subs`: on every key that some program was scored on, `front` has the best
/// score, and `sets` has exactly the programs that reach it.
pub open spec fn front_exact<K>(
    subs: Seq<Map<K, Score>>,
    front: Map<K, Score>,
    sets: Map<K, Set<usize>>,
) -> bool {
    &&& forall|k: K| #[trigger] sets.dom().contains(k) <==> front.dom().contains(k)
    &&& forall|k: K| #[trigger]
        front.dom().contains(k) <==> exists|i: int|
            0 <= i < subs.len() && (#[trigger] subs[i]).dom().contains(k)
    &&& forall|i: int, k: K|
        0 <= i < subs.len() && #[trigger] subs[i].dom().contains(k) ==> front[k].at_least(
            subs[i][k],
        )
    &&& forall|k: K, p: usize|
        front.dom().contains(k) ==> (#[trigger] sets[k].contains(p) <==> p < subs.len()
            && subs[p as int].dom().contains(k) && subs[p as int][k].level(front[k]))
}

/// One program alone is the front on every key that it was scored on.
pub proof fn seed_front_is_exact<K>(seed: Map<K, Score>, sets: Map<K, Set<usize>>)
    requires
        all_finite(seed),
        sets.dom() == seed.dom(),
        forall|k: K| #[trigger] seed.dom().contains(k) ==> sets[k] == Set::<usize>::empty().insert(0),
    ensures
        front_exact(seq![seed], seed, sets),
{
    let subs = seq![seed];
    assert(subs[0] == seed);
    assert forall|k: K| #[trigger] seed.dom().contains(k) <==> exists|i: int|
        0 <= i < subs.len() && (#[trigger] subs[i]).dom().contains(k) by {
        if seed.dom().contains(k) {
            assert(subs[0].dom().contains(k));
        }
    }
    assert forall|k: K, p: usize| seed.dom().contains(k) implies (#[trigger] sets[k].contains(p)
        <==> p < subs.len() && subs[p as int].dom().contains(k) && subs[p as int][k].level(
        seed[k],
    )) by {}
}

/// Raising the front to the scores of one more program gives the front of all
/// of them.
pub proof fn raised_front_is_exact<K>(
    subs: Seq<Map<K, Score>>,
    front: Map<K, Score>,
    sets: Map<K, Set<usize>>,
    new: Map<K, Score>,
    p: usize,
)
    requires
        front_exact(subs, front, sets),
        subs.len() == p,
        all_finite(new),
    ensures
        front_exact(subs.push(new), raised(front, new), joined(front, sets, new, p)),
{
    let more = subs.push(new);
    let front1 = raised(front, new);
    let sets1 = joined(front, sets, new, p);
    assert forall|i: int, k: K| 0 <= i < subs.len() && #[trigger] subs[i].dom().contains(
        k,
    ) implies front.dom().contains(k) && !front[k].nan() && !subs[i][k].nan() by {
        assert(front[k].at_least(subs[i][k]));
    }
    assert forall|k: K| front.dom().contains(k) implies !(#[trigger] front[k]).nan() by {
        let i = choose|i: int| 0 <= i < subs.len() && (#[trigger] subs[i]).dom().contains(k);
        assert(subs[i].dom().contains(k));
    }
    assert forall|k: K| #[trigger] front1.dom().contains(k) <==> exists|i: int|
        0 <= i < more.len() && (#[trigger] more[i]).dom().contains(k) by {
        if front.dom().contains(k) {
            let i = choose|i: int| 0 <= i < subs.len() && (#[trigger] subs[i]).dom().contains(k);
            assert(more[i].dom().contains(k));
        }
        if new.dom().contains(k) {
            assert(more[subs.len() as int].dom().contains(k));
        }
        if exists|i: int| 0 <= i < more.len() && (#[trigger] more[i]).dom().contains(k) {
            let i = choose|i: int| 0 <= i < more.len() && (#[trigger] more[i]).dom().contains(k);
            if i < subs.len() {
                assert(subs[i].dom().contains(k));
            } else {
                assert(new[k].finite());
            }
        }
    }
    assert forall|i: int, k: K| 0 <= i < more.len() && #[trigger] more[i].dom().contains(
        k,
    ) implies front1[k].at_least(more[i][k]) by {
        if i < subs.len() {
            assert(subs[i].dom().contains(k));
            assert(front[k].at_least(subs[i][k]));
        } else {
            assert(new[k].finite());
        }
    }
    assert forall|k: K, q: usize| front1.dom().contains(k) implies (#[trigger] sets1[k].contains(q)
        <==> q < more.len() && more[q as int].dom().contains(k) && more[q as int][k].level(
        front1[k],
    )) by {
        if q < subs.len() {
            assert(more[q as int] == subs[q as int]);
            if subs[q as int].dom().contains(k) {
                assert(front[k].at_least(subs[q as int][k]));
            }
        }
        if front.dom().contains(k) {
            assert(sets[k].contains(q) <==> q < subs.len() && subs[q as int].dom().contains(k)
                && subs[q as int][k].level(front[k]));
            assert(sets.dom().contains(k));
        } else {
            assert(!sets.dom().contains(k));
            if q < subs.len() && subs[q as int].dom().contains(k) {
                assert(front.dom().contains(k));
            }
        }
    }
    assert forall|k: K| #[trigger] sets1.dom().contains(k) <==> front1.dom().contains(k) by {
        if new.dom().contains(k) {
            assert(new[k].finite());
        }
        assert(sets.dom().contains(k) <==> front.dom().contains(k));
    }
}

/// The best score on a key never falls.
pub proof fn front_never_falls<K>(front: Map<K, Score>, new: Map<K, Score>, k: K)
    requires
        front.dom().contains(k),
        !front[k].nan(),
    ensures
        raised(front, new).dom().contains(k),
        raised(front, new)[k].at_least(front[k]),
{
}

} // verus!
