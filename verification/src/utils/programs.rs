//! Sets of program indices.
use std::collections::HashSet;
use vstd::prelude::*;
use vstd::std_specs::iter::IteratorSpec;

verus! {

broadcast use vstd::std_specs::hash::group_hash_axioms;

/// The index of a program in the list of all programs.
pub type ProgramIdx = usize;

/// The members of `set`, each once.
pub fn members(set: &HashSet<ProgramIdx>) -> (list: Vec<ProgramIdx>)
    ensures
        list@.no_duplicates(),
        list@.to_set() == set@,
{
    let mut list: Vec<usize> = Vec::new();
    let source = set.iter();
    let ghost all = source.remaining().unref();
    proof {
        let refs = source.remaining();
        assert(all.no_duplicates()) by {
            assert forall|i: int, j: int| 0 <= i < all.len() && 0 <= j < all.len() && i
                != j implies all[i] != all[j] by {
                assert(refs[i] != refs[j]);
            }
        }
    }
    for p in it: source
        invariant
            it.seq().unref() == all,
            list@ == all.take(it.index() as int),
    {
        list.push(*p);
        assert(all[it.index() as int] == *p);
        assert(list@ =~= all.take(it.index() + 1));
    }
    assert(list@ =~= all);
    list
}

/// A set with the same members.
pub fn copy_set(set: &HashSet<ProgramIdx>) -> (copy: HashSet<ProgramIdx>)
    ensures
        copy@ == set@,
{
    let list = members(set);
    set_of(&list)
}

/// The set of the members of `list`.
pub fn set_of(list: &Vec<ProgramIdx>) -> (set: HashSet<ProgramIdx>)
    ensures
        set@ == list@.to_set(),
{
    let mut set: HashSet<usize> = HashSet::new();
    let mut i: usize = 0;
    while i < list.len()
        invariant
            i <= list.len(),
            set@ =~= list@.take(i as int).to_set(),
        decreases list.len() - i,
    {
        set.insert(list[i]);
        proof {
            let t = list@.take(i + 1);
            assert(t.drop_last() =~= list@.take(i as int));
            assert(t =~= list@.take(i as int).push(list@[i as int]));
            assert forall|p: usize| t.to_set().contains(p) == list@.take(i as int).to_set().insert(
                list@[i as int],
            ).contains(p) by {
                if t.contains(p) {
                    let j = choose|j: int| 0 <= j < t.len() && t[j] == p;
                    if j < i {
                        assert(list@.take(i as int)[j] == p);
                    }
                }
                if list@.take(i as int).contains(p) {
                    let j = choose|j: int|
                        0 <= j < list@.take(i as int).len() && list@.take(i as int)[j] == p;
                    assert(t[j] == p);
                }
                if p == list@[i as int] {
                    assert(t[i as int] == p);
                }
            }
        }
        i += 1;
    }
    assert(list@.take(i as int) =~= list@);
    set
}

/// The set with the one member `p`.
pub fn singleton(p: ProgramIdx) -> (set: HashSet<ProgramIdx>)
    ensures
        set@ == Set::empty().insert(p),
{
    let mut set: HashSet<usize> = HashSet::new();
    set.insert(p);
    set
}

/// The members of `set` that are in `keep`.
pub fn intersection(set: &HashSet<ProgramIdx>, keep: &HashSet<ProgramIdx>) -> (both: HashSet<
    ProgramIdx,
>)
    ensures
        both@ == set@.intersect(keep@),
{
    let list = members(set);
    let mut both: HashSet<usize> = HashSet::new();
    let mut i: usize = 0;
    while i < list.len()
        invariant
            i <= list.len(),
            list@.to_set() == set@,
            forall|p: usize|
                #[trigger] both@.contains(p) <==> keep@.contains(p) && exists|j: int|
                    0 <= j < i && list@[j] == p,
        decreases list.len() - i,
    {
        let p: usize = list[i];
        if keep.contains(&p) {
            both.insert(p);
        }
        i += 1;
    }
    assert forall|p: usize| both@.contains(p) == set@.intersect(keep@).contains(p) by {
        if set@.contains(p) {
            assert(list@.to_set().contains(p));
            assert(list@.contains(p));
        }
        if both@.contains(p) {
            assert(list@.contains(p));
            assert(list@.to_set().contains(p));
        }
    }
    assert(both@ =~= set@.intersect(keep@));
    both
}

} // verus!
