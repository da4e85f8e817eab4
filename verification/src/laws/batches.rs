//! How examples are handed out in minibatches.
use vstd::arithmetic::div_mod::{
    lemma_fundamental_div_mod, lemma_fundamental_div_mod_converse, lemma_small_mod,
};
use vstd::prelude::*;

use crate::optimizer::data_loader::DataId;
use crate::optimizer::engine::following;
use crate::optimizer::state::BEFORE_FIRST_ITERATION;
use crate::strategies::batch_sampler::{
    counts_of, distinct_in_order, epoch_list, indexes, least_place, lemma_padded, occurrences,
    padded, padded_len, picked, rank, window_of, EpochShuffledSampler,
};

verus! {

/// The first iteration is number 0, and each one after it has the next number.
pub proof fn iterations_are_counted_from_zero(i: usize)
    ensures
        following(BEFORE_FIRST_ITERATION) == 0,
        i != BEFORE_FIRST_ITERATION ==> following(i) == i + 1,
        rank(BEFORE_FIRST_ITERATION) == 0,
        i != BEFORE_FIRST_ITERATION ==> rank(i) == i,
{
}

/// The length of an epoch is the least multiple of the minibatch size that has
/// room for all examples.
pub proof fn an_epoch_is_as_short_as_can_be(n: int, size: int)
    requires
        n > 0,
        size > 0,
    ensures
        padded_len(n, size) % size == 0,
        n <= padded_len(n, size) < n + size,
{
    lemma_padded(n, size);
    lemma_fundamental_div_mod(n, size);
}

/// Occurrences are counted as in a multiset.
pub proof fn occurrences_are_counted<K>(list: Seq<K>, x: K, n: int)
    requires
        0 <= n <= list.len(),
    ensures
        occurrences(list, x, n) == list.take(n).to_multiset().count(x),
    decreases n,
{
    broadcast use vstd::seq_lib::group_to_multiset_ensures;

    if n > 0 {
        occurrences_are_counted(list, x, n - 1);
        assert(list.take(n) =~= list.take(n - 1).push(list[n - 1]));
    } else {
        assert(list.take(0) =~= Seq::empty());
        assert(list.take(0).to_multiset().count(x) == 0);
    }
}

/// The place of the least count is the first of those with a least count.
pub proof fn the_least_count_comes_first(counts: Seq<nat>, n: int)
    requires
        1 <= n <= counts.len(),
    ensures
        0 <= least_place(counts, n) < n,
        forall|i: int| 0 <= i < n ==> counts[least_place(counts, n)] <= #[trigger] counts[i],
        forall|i: int|
            0 <= i < least_place(counts, n) ==> counts[least_place(counts, n)]
                < #[trigger] counts[i],
    decreases n,
{
    if n > 1 {
        the_least_count_comes_first(counts, n - 1);
    }
}

/// The distinct elements are those of the list, each once.
pub proof fn distinct_elements_are_those_of_the_list<K>(list: Seq<K>, n: int)
    requires
        0 <= n <= list.len(),
    ensures
        distinct_in_order(list, n).no_duplicates(),
        forall|x: K| #[trigger]
            distinct_in_order(list, n).contains(x) <==> list.take(n).contains(x),
    decreases n,
{
    let now = distinct_in_order(list, n);
    if n > 0 {
        distinct_elements_are_those_of_the_list(list, n - 1);
        let before = distinct_in_order(list, n - 1);
        let part = list.take(n - 1);
        let whole = list.take(n);
        let last = list[n - 1];
        assert forall|x: K| #[trigger] now.contains(x) <==> whole.contains(x) by {
            if now.contains(x) {
                if before.contains(x) {
                    assert(part.contains(x));
                    let i = choose|i: int| 0 <= i < part.len() && part[i] == x;
                    assert(whole[i] == x);
                } else {
                    let i = choose|i: int| 0 <= i < now.len() && now[i] == x;
                    assert(x == last) by {
                        if i < before.len() {
                            assert(before[i] == x);
                        }
                    }
                    assert(whole[n - 1] == x);
                }
            }
            if whole.contains(x) {
                let i = choose|i: int| 0 <= i < whole.len() && whole[i] == x;
                if i < n - 1 {
                    assert(part[i] == x);
                    assert(before.contains(x));
                    let j = choose|j: int| 0 <= j < before.len() && before[j] == x;
                    assert(now[j] == x);
                } else if before.contains(last) {
                } else {
                    assert(now[before.len() as int] == x);
                }
            }
        }
    } else {
        assert(list.take(0) =~= Seq::empty());
    }
}

/// Padding keeps the list and adds, one by one, an element that occurs least.
pub proof fn padding_adds_what_occurs_least<K>(list: Seq<K>, keys: Seq<K>, k: int, j: int)
    requires
        0 < k,
        keys.len() > 0,
        0 <= j < keys.len(),
    ensures
        padded(list, keys, k).len() == list.len() + k,
        padded(list, keys, k).drop_last() == padded(list, keys, k - 1),
        keys.contains(padded(list, keys, k).last()),
        ({
            let before = padded(list, keys, k - 1);
            occurrences(before, padded(list, keys, k).last(), before.len() as int) <= occurrences(
                before,
                keys[j],
                before.len() as int,
            )
        }),
        padded(list, keys, 0) == list,
    decreases k,
{
    let before = padded(list, keys, k - 1);
    if k > 1 {
        padding_adds_what_occurs_least(list, keys, k - 1, j);
    }
    let c = counts_of(keys, before);
    the_least_count_comes_first(c, keys.len() as int);
    let p = least_place(c, keys.len() as int);
    assert(padded(list, keys, k) == before.push(keys[p]));
    assert(padded(list, keys, k).drop_last() =~= before);
    assert(c[p] <= c[j]);
}

/// The order of an epoch starts with the examples at the shuffled positions.
pub proof fn an_epoch_starts_with_the_shuffled_examples<K>(
    ids: Seq<K>,
    positions: Seq<usize>,
    size: int,
    i: int,
)
    requires
        size > 0,
        ids.len() > 0,
        positions.len() == ids.len(),
        0 <= i < positions.len(),
    ensures
        epoch_list(ids, positions, size).len() == padded_len(ids.len() as int, size),
        epoch_list(ids, positions, size)[i] == ids[positions[i] as int],
{
    let first = picked(ids, positions);
    let keys = distinct_in_order(first, first.len() as int);
    let k = padded_len(ids.len() as int, size) - ids.len();
    lemma_padded(ids.len() as int, size);
    distinct_elements_are_those_of_the_list(first, first.len() as int);
    assert(first.take(first.len() as int) =~= first);
    assert(first.contains(first[0]));
    assert(keys.contains(first[0]));
    lemma_padded_starts(first, keys, k, i);
}

proof fn lemma_padded_starts<K>(list: Seq<K>, keys: Seq<K>, k: int, i: int)
    requires
        0 <= k,
        keys.len() > 0,
        0 <= i < list.len(),
    ensures
        padded(list, keys, k).len() == list.len() + k,
        padded(list, keys, k)[i] == list[i],
    decreases k,
{
    if k > 0 {
        lemma_padded_starts(list, keys, k - 1, i);
    }
}

/// The first window starts at the front; each later one starts where the one
/// before it ends, or at the front again where that was the end of the list.
pub proof fn windows_follow_one_another<K>(
    list: Seq<K>,
    size: int,
    i: usize,
    start: int,
    first: Seq<K>,
    second: Seq<K>,
)
    requires
        size > 0,
        list.len() > 0,
        i + 1 < BEFORE_FIRST_ITERATION,
        window_of(list, size, i, first),
        window_of(list, size, (i + 1) as usize, second),
        start == (i * size) % list.len() as int,
    ensures
        first == list.subrange(start, start + size),
        start + size < list.len() ==> second == list.subrange(start + size, start + 2 * size),
        start + size == list.len() ==> second == list.subrange(0, size),
        start + size <= list.len(),
        i == 0 ==> start == 0,
{
    let n = list.len() as int;
    let a = i * size;
    lemma_fundamental_div_mod(a, n);
    let q = a / n;
    assert((i + 1) * size == a + size) by (nonlinear_arith)
        requires
            a == i * size,
    ;
    assert(a == n * q + start);
    assert(n * q == q * n) by (nonlinear_arith);
    assert(n * (q + 1) == (q + 1) * n) by (nonlinear_arith);
    if start + size < n {
        lemma_fundamental_div_mod_converse(a + size, n, q, start + size);
    } else if start + size == n {
        assert(a + size == n * q + n);
        assert(n * q + n == n * (q + 1)) by (nonlinear_arith);
        lemma_fundamental_div_mod_converse(a + size, n, q + 1, 0);
    }
    if i == 0 {
        assert(a == 0) by (nonlinear_arith)
            requires
                a == i * size,
                i == 0,
        ;
        lemma_small_mod(0, n as nat);
    }
}

/// The examples are shuffled anew where they never were, where their number
/// changed, and where the windows of the epoch are used up; and only there.
pub proof fn examples_are_shuffled_once_an_epoch<Id: DataId>(
    sampler: EpochShuffledSampler<Id>,
    n: nat,
    iteration: usize,
)
    ensures
        sampler.epoch is None || sampler.shuffled_ids@.len() == 0 ==> sampler.stale(n, iteration),
        n != sampler.last_trainset_size ==> sampler.stale(n, iteration),
        sampler.epoch is Some && sampler.shuffled_ids@.len() > 0 && n == sampler.last_trainset_size
            ==> (sampler.stale(n, iteration) <==> rank(iteration) * sampler.minibatch_size >= (
        sampler.epoch->0 + 1) * sampler.shuffled_ids@.len()),
{
    if sampler.epoch is Some && sampler.shuffled_ids@.len() > 0 {
        let len = sampler.shuffled_ids@.len() as int;
        let x = rank(iteration) * sampler.minibatch_size;
        let e = sampler.epoch->0 as int;
        lemma_fundamental_div_mod(x, len);
        let q = x / len;
        let r = x % len;
        assert(q > e <==> x >= (e + 1) * len) by (nonlinear_arith)
            requires
                x == len * q + r,
                0 <= r < len,
        ;
    }
}

/// The element at a position is picked for it.
pub proof fn elements_are_picked_by_position<K>(ids: Seq<K>, order: Seq<usize>, i: int)
    requires
        0 <= i < order.len(),
    ensures
        picked(ids, order).len() == order.len(),
        picked(ids, order)[i] == ids[order[i] as int],
{
}

/// The indices below a number are these, in order.
pub proof fn indexes_are_in_order(n: nat, i: int)
    requires
        0 <= i < n <= usize::MAX,
    ensures
        indexes(n).len() == n,
        indexes(n)[i] == i,
{
}

} // verus!
