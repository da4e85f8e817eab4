//! Which training examples the next minibatch has.
use rand::rngs::StdRng;
use vstd::prelude::*;

use crate::error::{GEPAError, Result};
use crate::keyed::{views, KeyMap};
use crate::optimizer::data_loader::DataId;
use crate::optimizer::state::{GEPAState, BEFORE_FIRST_ITERATION};
use crate::random::{seeded, seeded_generator, shuffle, shuffled_list};

verus! {

/// Chooses the training examples of the next minibatch.
pub trait BatchSampler<Id: DataId>: Send + Sync {
    /// What the next draw needs: nothing, unless an impl says more.
    open spec fn ready(&self, all_ids: Seq<Id::V>, iteration: usize) -> bool {
        true
    }

    /// Whether `r` is what the sampler may give for the iteration: anything,
    /// unless an impl says more.
    open spec fn may_give(
        &self,
        all_ids: Seq<Id::V>,
        iteration: usize,
        r: Result<Vec<Id>>,
    ) -> bool {
        true
    }

    /// Whether `after` may be left of the sampler once it has given `r` for the
    /// iteration: anything, unless an impl says more.
    open spec fn may_leave(
        &self,
        after: &Self,
        all_ids: Seq<Id::V>,
        iteration: usize,
        r: Result<Vec<Id>>,
    ) -> bool {
        true
    }

    /// The examples of the next minibatch. A sampler that is ready for some draw
    /// stays so.
    ///
    /// # Errors
    /// [`GEPAError::EmptyDataset`] where there is no example.
    fn next_batch_ids(&mut self, all_ids: &[Id], state: &GEPAState<Id>) -> (r: Result<Vec<Id>>)
        requires
            old(self).ready(views(all_ids@), state.i),
        ensures
            all_ids@.len() == 0 ==> (r matches Err(e) && e is EmptyDataset),
            old(self).may_give(views(all_ids@), state.i, r),
            old(self).may_leave(&*final(self), views(all_ids@), state.i, r),
            forall|ids: Seq<Id::V>, iteration: usize|
                old(self).ready(ids, iteration) ==> #[trigger] final(self).ready(ids, iteration),
    ;
}

/// Shuffles the examples once in an epoch and hands them out in consecutive
/// windows. The examples that were seen least fill up the last window.
pub struct EpochShuffledSampler<Id: DataId> {
    /// The size of a minibatch.
    pub minibatch_size: usize,
    /// The source of chance.
    pub rng: StdRng,
    /// The examples in the order of the epoch.
    pub shuffled_ids: Vec<Id>,
    /// The epoch, once there is one.
    pub epoch: Option<usize>,
    /// The number of examples that were last shuffled.
    pub last_trainset_size: usize,
}

/// The rank of the iteration: 0 before the first.
pub open spec fn rank(iteration: usize) -> int {
    if iteration == BEFORE_FIRST_ITERATION {
        0
    } else {
        iteration as int
    }
}

/// How often `x` occurs in the first `n` elements.
pub open spec fn occurrences<K>(list: Seq<K>, x: K, n: int) -> nat
    decreases n,
{
    if n <= 0 {
        0
    } else {
        occurrences(list, x, n - 1) + if list[n - 1] == x {
            1nat
        } else {
            0
        }
    }
}

/// The least multiple of `size` that is not below `n`.
pub open spec fn padded_len(n: int, size: int) -> int {
    if n % size == 0 {
        n
    } else {
        n + size - n % size
    }
}

/// Whether `list` is an order for an epoch over the examples `ids`: a
/// permutation of them, and then, up to a multiple of the minibatch size, such
/// as occur least before.
pub open spec fn epoch_order<K>(list: Seq<K>, ids: Seq<K>, size: int) -> bool {
    &&& list.len() == padded_len(ids.len() as int, size)
    &&& list.take(ids.len() as int).to_multiset() == ids.to_multiset()
    &&& forall|j: int, x: K|
        ids.len() <= j < list.len() && ids.contains(x) ==> #[trigger] occurrences(
            list,
            list[j],
            j,
        ) <= #[trigger] occurrences(list, x, j)
    &&& forall|j: int| 0 <= j < list.len() ==> ids.contains(#[trigger] list[j])
}

/// Whether `batch` is the window of the iteration: so many elements of the list,
/// from where the windows of the iterations before it end, round and round.
pub open spec fn window_of<K>(list: Seq<K>, size: int, iteration: usize, batch: Seq<K>) -> bool {
    let start = (rank(iteration) * size) % list.len() as int;
    &&& 0 <= start
    &&& start + size <= list.len()
    &&& batch == list.subrange(start, start + size)
}

impl<Id: DataId> EpochShuffledSampler<Id> {
    /// The order fills whole windows.
    pub open spec fn wf(&self) -> bool {
        &&& self.minibatch_size > 0
        &&& self.shuffled_ids@.len() as int % self.minibatch_size as int == 0
    }

    /// The epoch that the iteration falls into.
    pub open spec fn epoch_at(&self, iteration: usize) -> int {
        if self.epoch is None || self.shuffled_ids@.len() == 0 {
            0
        } else {
            (rank(iteration) * self.minibatch_size) / self.shuffled_ids@.len() as int
        }
    }

    /// Whether the examples are to be shuffled anew.
    pub open spec fn stale(&self, n: nat, iteration: usize) -> bool {
        ||| self.epoch is None
        ||| self.shuffled_ids@.len() == 0
        ||| n != self.last_trainset_size
        ||| self.epoch_at(iteration) > self.epoch->0
    }

    /// The order from which the iteration is served: that of the epoch, or, where
    /// that is stale, the one that the generator shuffles next.
    pub open spec fn order_for(&self, all_ids: Seq<Id::V>, iteration: usize) -> Seq<Id::V> {
        if self.stale(all_ids.len(), iteration) {
            epoch_list(
                all_ids,
                shuffled_list(self.rng, indexes(all_ids.len())).0,
                self.minibatch_size as int,
            )
        } else {
            views(self.shuffled_ids@)
        }
    }

    /// Whether `batch` is the window of the iteration in the order that it is
    /// served from.
    pub open spec fn draws(
        &self,
        all_ids: Seq<Id::V>,
        iteration: usize,
        batch: Seq<Id::V>,
    ) -> bool {
        window_of(
            self.order_for(all_ids, iteration),
            self.minibatch_size as int,
            iteration,
            batch,
        )
    }

    /// Whether `after` is the sampler after it has served the iteration.
    pub open spec fn served(&self, all_ids: Seq<Id::V>, iteration: usize, after: Self) -> bool {
        if self.stale(all_ids.len(), iteration) {
            &&& after.minibatch_size == self.minibatch_size
            &&& after.rng == shuffled_list(self.rng, indexes(all_ids.len())).1
            &&& views(after.shuffled_ids@) == self.order_for(all_ids, iteration)
            &&& after.epoch == Some(self.epoch_at(iteration) as usize)
            &&& after.last_trainset_size == all_ids.len()
        } else {
            after == *self
        }
    }

    /// Whether the sampler is as [`Self::new`] makes it.
    pub open spec fn unused(&self, minibatch_size: usize, seed: u64) -> bool {
        &&& self.minibatch_size == minibatch_size
        &&& self.rng == seeded_generator(seed)
        &&& self.shuffled_ids@.len() == 0
        &&& self.epoch is None
        &&& self.last_trainset_size == 0
    }

    /// Whether nothing that the next batch depends on tells the two apart.
    pub open spec fn alike(&self, other: Self) -> bool {
        &&& self.minibatch_size == other.minibatch_size
        &&& self.rng == other.rng
        &&& views(self.shuffled_ids@) == views(other.shuffled_ids@)
        &&& self.epoch == other.epoch
        &&& self.last_trainset_size == other.last_trainset_size
    }

    /// A sampler with a minibatch size and a seed.
    ///
    /// # Errors
    /// A configuration error where the size is 0.
    pub fn new(minibatch_size: usize, seed: u64) -> (r: Result<Self>)
        ensures
            match r {
                Ok(s) => {
                    &&& minibatch_size > 0
                    &&& s.wf()
                    &&& s.unused(minibatch_size, seed)
                },
                Err(e) => {
                    &&& minibatch_size == 0
                    &&& e matches GEPAError::Config(text)
                    &&& text@ == "minibatch_size must be at least 1"@
                },
            },
    {
        if minibatch_size == 0 {
            return Err(GEPAError::Config("minibatch_size must be at least 1".to_owned()));
        }
        proof {
            vstd::arithmetic::div_mod::lemma_small_mod(0, minibatch_size as nat);
        }
        Ok(
            EpochShuffledSampler {
                minibatch_size,
                rng: seeded(seed),
                shuffled_ids: Vec::new(),
                epoch: None,
                last_trainset_size: 0,
            },
        )
    }

    /// Shuffle the examples for a new epoch.
    fn update_shuffled(&mut self, all_ids: &[Id])
        requires
            old(self).minibatch_size > 0,
            all_ids@.len() > 0,
            padded_len(all_ids@.len() as int, old(self).minibatch_size as int) <= usize::MAX,
        ensures
            final(self).minibatch_size == old(self).minibatch_size,
            final(self).epoch == old(self).epoch,
            final(self).last_trainset_size == all_ids@.len(),
            epoch_order(
                views(final(self).shuffled_ids@),
                views(all_ids@),
                old(self).minibatch_size as int,
            ),
            ({
                let (positions, rest) = shuffled_list(old(self).rng, indexes(all_ids@.len()));
                &&& views(final(self).shuffled_ids@) == epoch_list(
                    views(all_ids@),
                    positions,
                    old(self).minibatch_size as int,
                )
                &&& final(self).rng == rest
            }),
    {
        let n: usize = all_ids.len();
        self.last_trainset_size = n;
        let mut positions: Vec<usize> = Vec::new();
        let mut i: usize = 0;
        while i < n
            invariant
                i <= n,
                positions@.len() == i,
                forall|j: int| 0 <= j < i ==> positions@[j] == j,
            decreases n - i,
        {
            positions.push(i);
            i += 1;
        }
        assert(positions@ =~= indexes(n as nat));
        shuffle(&mut positions, &mut self.rng);
        self.shuffled_ids = arrange(all_ids, &positions, self.minibatch_size);
    }
}

/// The numbers below `n`, in order.
pub open spec fn indexes(n: nat) -> Seq<usize> {
    Seq::new(n, |i: int| i as usize)
}

/// The elements of the first `n` of `list`, each once, in the order in which they
/// come first.
pub open spec fn distinct_in_order<K>(list: Seq<K>, n: int) -> Seq<K>
    decreases n,
{
    if n <= 0 {
        seq![]
    } else {
        let before = distinct_in_order(list, n - 1);
        if before.contains(list[n - 1]) {
            before
        } else {
            before.push(list[n - 1])
        }
    }
}

/// How often each of `keys` occurs in `list`.
pub open spec fn counts_of<K>(keys: Seq<K>, list: Seq<K>) -> Seq<nat> {
    Seq::new(keys.len(), |i: int| occurrences(list, keys[i], list.len() as int))
}

/// The first place of the least of the first `n` counts.
pub open spec fn least_place(counts: Seq<nat>, n: int) -> int
    decreases n,
{
    if n <= 1 {
        0
    } else {
        let before = least_place(counts, n - 1);
        if counts[n - 1] < counts[before] {
            n - 1
        } else {
            before
        }
    }
}

/// `list` with `k` more elements: each time the first of `keys` that occurs least
/// so far.
pub open spec fn padded<K>(list: Seq<K>, keys: Seq<K>, k: int) -> Seq<K>
    decreases k,
{
    if k <= 0 {
        list
    } else {
        let before = padded(list, keys, k - 1);
        before.push(keys[least_place(counts_of(keys, before), keys.len() as int)])
    }
}

/// The order of an epoch whose examples were shuffled to the given positions: the
/// examples at the positions, and then, up to a multiple of the minibatch size,
/// such as occur least before.
pub open spec fn epoch_list<K>(ids: Seq<K>, positions: Seq<usize>, size: int) -> Seq<K> {
    let first = picked(ids, positions);
    padded(
        first,
        distinct_in_order(first, first.len() as int),
        padded_len(ids.len() as int, size) - ids.len(),
    )
}

/// The order of an epoch whose examples were shuffled to `positions`.
pub fn arrange<Id: DataId>(all_ids: &[Id], positions: &Vec<usize>, size: usize) -> (list: Vec<Id>)
    requires
        size > 0,
        all_ids@.len() > 0,
        padded_len(all_ids@.len() as int, size as int) <= usize::MAX,
        positions@.to_multiset() == indexes(all_ids@.len()).to_multiset(),
    ensures
        views(list@) == epoch_list(views(all_ids@), positions@, size as int),
        epoch_order(views(list@), views(all_ids@), size as int),
{
    let ghost ids = views(all_ids@);
    let n: usize = all_ids.len();
    let mut order = pick(all_ids, positions);
    let ghost first = views(order@);
    let ghost keys = distinct_in_order(first, first.len() as int);
    assert(first.take(n as int) =~= first);
    let remainder: usize = n % size;
    proof {
        first.to_multiset_ensures();
        ids.to_multiset_ensures();
        assert(first.len() == n);
        assert forall|j: int| 0 <= j < first.len() implies ids.contains(
            #[trigger] first[j],
        ) by {
            assert(first.contains(first[j]));
            assert(first.to_multiset().count(first[j]) > 0);
        }
        assert(first.take(ids.len() as int).to_multiset() == ids.to_multiset());
    }
    if remainder != 0 {
        let mut freqs = frequencies(&order);
        let missing: usize = size - remainder;
        let mut k: usize = 0;
        assert(freqs.key_seq() == keys);
        proof {
            assert forall|x: Id::V| #[trigger] freqs@.dom().contains(x) <==> ids.contains(x) by {
                assert(first.contains(x) <==> first.to_multiset().count(x) > 0);
                assert(ids.contains(x) <==> ids.to_multiset().count(x) > 0);
            }
        }
        while k < missing
            invariant
                n == ids.len(),
                n > 0,
                n + missing <= usize::MAX,
                k <= missing,
                order@.len() == n + k,
                freqs.key_seq() == keys,
                views(order@) == padded(first, keys, k as int),
                views(order@).take(n as int) == first,
                first.to_multiset() == ids.to_multiset(),
                forall|j: int| 0 <= j < first.len() ==> ids.contains(#[trigger] first[j]),
                first.len() == n,
                freqs.wf(),
                freqs.key_seq().len() > 0,
                counts(freqs@, views(order@)),
                forall|x: Id::V| #[trigger] freqs@.dom().contains(x) <==> ids.contains(x),
                forall|j: int, x: Id::V|
                    n <= j < order@.len() && ids.contains(x) ==> #[trigger] occurrences(
                        views(order@),
                        views(order@)[j],
                        j,
                    ) <= #[trigger] occurrences(views(order@), x, j),
                forall|j: int|
                    0 <= j < order@.len() ==> ids.contains(#[trigger] views(order@)[j]),
            decreases missing - k,
        {
            let ghost before = views(order@);
            let at: usize = least_position(&freqs);
            proof {
                assert forall|q: int| 0 <= q < keys.len() implies freqs.value_seq()[q]
                    == #[trigger] counts_of(keys, before)[q] by {
                    freqs.lemma_entry(q);
                }
                assert(as_nats(freqs.value_seq()) =~= counts_of(keys, before));
            }
            let id = freqs.key_at(at).duplicate();
            let ghost x = id@;
            proof {
                freqs.lemma_entry(at as int);
            }
            let count: usize = *freqs.value_at(at);
            assert(count == occurrences(before, x, before.len() as int));
            proof {
                lemma_occurrences_bound(before, x, before.len() as int);
            }
            order.push(id);
            freqs.set_value(at, count + 1);
            proof {
                let after = views(order@);
                assert(after =~= before.push(x));
                assert(after.take(n as int) =~= before.take(n as int));
                assert forall|y: Id::V, m: int| 0 <= m <= before.len() implies #[trigger]
                    occurrences(after, y, m) == occurrences(before, y, m) by {
                    lemma_occurrences_prefix(before, x, y, m);
                }
                assert forall|j: int, y: Id::V|
                    n <= j < after.len() && ids.contains(y) implies #[trigger] occurrences(
                    after,
                    after[j],
                    j,
                ) <= #[trigger] occurrences(after, y, j) by {
                    if j < before.len() {
                        assert(after[j] == before[j]);
                        assert(occurrences(before, before[j], j) <= occurrences(before, y, j));
                    } else {
                        assert(freqs@.dom().contains(y));
                    }
                }
                assert forall|j: int| 0 <= j < after.len() implies ids.contains(
                    #[trigger] after[j],
                ) by {
                    if j < before.len() {
                        assert(after[j] == before[j]);
                    }
                }
                assert forall|y: Id::V| #[trigger] freqs@.dom().contains(y) implies freqs@[y]
                    == occurrences(after, y, after.len() as int) by {
                    assert(occurrences(after, y, before.len() as int) == occurrences(
                        before,
                        y,
                        before.len() as int,
                    ));
                }
            }
            k += 1;
        }
    }
    proof {
        let list = views(order@);
        assert(list.take(n as int) =~= first);
        if remainder == 0 {
            assert(list =~= first);
        }
    }
    order
}

/// Whether the map has how often each of its keys occurs in `list`.
pub open spec fn counts<K>(freqs: Map<K, usize>, list: Seq<K>) -> bool {
    forall|x: K| #[trigger]
        freqs.dom().contains(x) ==> freqs[x] == occurrences(list, x, list.len() as int)
}

proof fn lemma_occurrences_bound<K>(list: Seq<K>, x: K, n: int)
    requires
        0 <= n,
    ensures
        occurrences(list, x, n) <= n,
    decreases n,
{
    if n > 0 {
        lemma_occurrences_bound(list, x, n - 1);
    }
}

proof fn lemma_occurrences_prefix<K>(list: Seq<K>, last: K, x: K, n: int)
    requires
        n <= list.len(),
    ensures
        occurrences(list.push(last), x, n) == occurrences(list, x, n),
    decreases n,
{
    if n > 0 {
        lemma_occurrences_prefix(list, last, x, n - 1);
    }
}

/// How often each of `list` occurs in it.
fn frequencies<Id: DataId>(list: &Vec<Id>) -> (freqs: KeyMap<Id, usize>)
    ensures
        freqs.wf(),
        freqs.key_seq() == distinct_in_order(views(list@), list@.len() as int),
        counts(freqs@, views(list@)),
        forall|x: Id::V| #[trigger] freqs@.dom().contains(x) <==> views(list@).contains(x),
        list@.len() > 0 ==> freqs.key_seq().len() > 0,
{
    let ghost all = views(list@);
    let mut freqs: KeyMap<Id, usize> = KeyMap::new();
    let mut i: usize = 0;
    while i < list.len()
        invariant
            all == views(list@),
            i <= list@.len(),
            freqs.wf(),
            freqs.key_seq() == distinct_in_order(all, i as int),
            forall|x: Id::V| #[trigger]
                freqs@.dom().contains(x) ==> freqs@[x] == occurrences(all, x, i as int),
            forall|x: Id::V| #[trigger]
                freqs@.dom().contains(x) <==> exists|j: int| 0 <= j < i && #[trigger] all[j] == x,
        decreases list@.len() - i,
    {
        let id = &list[i];
        assert(all[i as int] == id@);
        proof {
            lemma_occurrences_bound(all, id@, i as int);
            assert forall|x: Id::V| !freqs@.dom().contains(x) implies #[trigger] occurrences(
                all,
                x,
                i as int,
            ) == 0 by {
                lemma_absent(all, x, i as int);
            }
        }
        let count: usize = match freqs.get(id) {
            Some(c) => *c,
            None => 0,
        };
        let ghost before = freqs@;
        proof {
            if before.dom().contains(id@) {
                let p = freqs.lemma_position(id@);
                assert(freqs.key_seq().contains(id@));
            } else if freqs.key_seq().contains(id@) {
                let p = choose|p: int|
                    0 <= p < freqs.key_seq().len() && freqs.key_seq()[p] == id@;
                freqs.lemma_entry(p);
            }
        }
        freqs.insert(id.duplicate(), count + 1);
        proof {
            assert forall|x: Id::V| #[trigger] freqs@.dom().contains(x) <==> exists|j: int|
                0 <= j < i + 1 && #[trigger] all[j] == x by {
                if before.dom().contains(x) {
                    let j = choose|j: int| 0 <= j < i && #[trigger] all[j] == x;
                    assert(0 <= j < i + 1 && all[j] == x);
                }
                if exists|j: int| 0 <= j < i + 1 && #[trigger] all[j] == x {
                    let j = choose|j: int| 0 <= j < i + 1 && #[trigger] all[j] == x;
                    if j < i {
                        assert(before.dom().contains(x));
                    }
                }
            }
        }
        i += 1;
    }
    proof {
        if list@.len() > 0 {
            assert(0 <= 0 < i && all[0] == all[0]);
            assert(freqs@.dom().contains(all[0]));
            let p = freqs.lemma_position(all[0]);
        }
    }
    freqs
}

proof fn lemma_absent<K>(list: Seq<K>, x: K, n: int)
    requires
        n <= list.len(),
        forall|j: int| 0 <= j < n ==> #[trigger] list[j] != x,
    ensures
        occurrences(list, x, n) == 0,
    decreases n,
{
    if n > 0 {
        lemma_absent(list, x, n - 1);
    }
}

/// The counts as numbers.
pub open spec fn as_nats(counts: Seq<usize>) -> Seq<nat> {
    Seq::new(counts.len(), |i: int| counts[i] as nat)
}

/// The first position of a least count.
fn least_position<Id: DataId>(freqs: &KeyMap<Id, usize>) -> (at: usize)
    requires
        freqs.wf(),
        freqs.key_seq().len() > 0,
    ensures
        at < freqs.key_seq().len(),
        at == least_place(as_nats(freqs.value_seq()), freqs.value_seq().len() as int),
        forall|x: Id::V| #[trigger]
            freqs@.dom().contains(x) ==> freqs.value_seq()[at as int] <= freqs@[x],
{
    let n: usize = freqs.len();
    let mut at: usize = 0;
    let mut i: usize = 1;
    while i < n
        invariant
            freqs.wf(),
            n == freqs.key_seq().len(),
            1 <= i <= n,
            at < i,
            at == least_place(as_nats(freqs.value_seq()), i as int),
            forall|j: int|
                0 <= j < i ==> freqs.value_seq()[at as int] <= #[trigger] freqs.value_seq()[j],
        decreases n - i,
    {
        if *freqs.value_at(i) < *freqs.value_at(at) {
            at = i;
        }
        i += 1;
    }
    proof {
        assert forall|x: Id::V| #[trigger] freqs@.dom().contains(x) implies freqs.value_seq()[at as int]
            <= freqs@[x] by {
            let p = freqs.lemma_position(x);
            assert(freqs.value_seq()[at as int] <= freqs.value_seq()[p]);
        }
    }
    at
}

/// The elements of `ids` at the positions `order`.
pub open spec fn picked<K>(ids: Seq<K>, order: Seq<usize>) -> Seq<K> {
    Seq::new(order.len(), |i: int| ids[order[i] as int])
}

/// Positions that are the same but for their order pick the same elements.
proof fn lemma_picked<K>(ids: Seq<K>, p: Seq<usize>, q: Seq<usize>)
    requires
        p.to_multiset() == q.to_multiset(),
    ensures
        picked(ids, p).to_multiset() == picked(ids, q).to_multiset(),
    decreases p.len(),
{
    broadcast use vstd::seq_lib::group_to_multiset_ensures;

    p.to_multiset_ensures();
    q.to_multiset_ensures();
    assert(p.len() == q.len());
    if p.len() == 0 {
        assert(picked(ids, p) =~= picked(ids, q));
    } else {
        let x = p.last();
        let p0 = p.drop_last();
        assert(p =~= p0.push(x));
        assert(p.contains(x)) by {
            assert(p[p.len() - 1] == x);
        }
        assert(q.to_multiset().count(x) > 0);
        assert(q.contains(x));
        let j = choose|j: int| 0 <= j < q.len() && q[j] == x;
        let q0 = q.remove(j);
        vstd::seq_lib::to_multiset_build(p0, x);
        vstd::seq_lib::to_multiset_remove(q, j);
        assert(p0.to_multiset() =~= q0.to_multiset());
        lemma_picked(ids, p0, q0);
        assert(picked(ids, p) =~= picked(ids, p0).push(ids[x as int]));
        vstd::seq_lib::to_multiset_build(picked(ids, p0), ids[x as int]);
        let pq = picked(ids, q);
        assert(pq.remove(j) =~= picked(ids, q0));
        vstd::seq_lib::to_multiset_remove(pq, j);
        pq.to_multiset_ensures();
        assert(pq[j] == ids[x as int]);
        assert(pq.contains(pq[j]));
        assert(pq.to_multiset() =~= picked(ids, q0).to_multiset().insert(ids[x as int]));
    }
}

/// The examples at the positions, which are all of theirs in some order.
fn pick<Id: DataId>(all_ids: &[Id], positions: &Vec<usize>) -> (order: Vec<Id>)
    requires
        positions@.to_multiset() == indexes(all_ids@.len()).to_multiset(),
    ensures
        order@.len() == all_ids@.len(),
        views(order@) == picked(views(all_ids@), positions@),
        views(order@).to_multiset() == views(all_ids@).to_multiset(),
{
    let n: usize = all_ids.len();
    let ghost before = indexes(n as nat);
    proof {
        lemma_picked(views(all_ids@), positions@, before);
        assert(picked(views(all_ids@), before) =~= views(all_ids@));
        positions@.to_multiset_ensures();
        before.to_multiset_ensures();
        assert forall|j: int| 0 <= j < positions@.len() implies (#[trigger] positions@[j]) < n by {
            assert(positions@.contains(positions@[j]));
            assert(positions@.to_multiset().count(positions@[j]) > 0);
            assert(before.contains(positions@[j]));
        }
    }
    let mut order: Vec<Id> = Vec::new();
    let mut k: usize = 0;
    while k < positions.len()
        invariant
            n == all_ids@.len(),
            k <= positions@.len(),
            forall|j: int| 0 <= j < positions@.len() ==> (#[trigger] positions@[j]) < n,
            order@.len() == k,
            forall|j: int|
                0 <= j < k ==> (#[trigger] order@[j])@ == all_ids@[positions@[j] as int]@,
        decreases positions@.len() - k,
    {
        order.push(all_ids[positions[k]].duplicate());
        k += 1;
    }
    assert(views(order@) =~= picked(views(all_ids@), positions@));
    order
}

impl<Id: DataId> BatchSampler<Id> for EpochShuffledSampler<Id> {
    /// The positions fit the machine's words.
    open spec fn ready(&self, all_ids: Seq<Id::V>, iteration: usize) -> bool {
        &&& self.wf()
        &&& rank(iteration) * self.minibatch_size <= usize::MAX
        &&& padded_len(all_ids.len() as int, self.minibatch_size as int) <= usize::MAX
    }

    /// The window of the iteration in the order of the epoch, which is shuffled
    /// anew where it is stale.
    open spec fn may_give(
        &self,
        all_ids: Seq<Id::V>,
        iteration: usize,
        r: Result<Vec<Id>>,
    ) -> bool {
        match r {
            Ok(batch) => all_ids.len() > 0 && self.draws(all_ids, iteration, views(batch@)),
            Err(e) => {
                &&& all_ids.len() == 0
                &&& e matches GEPAError::EmptyDataset(text)
                &&& text@ == "Cannot sample a minibatch from an empty loader"@
            },
        }
    }

    /// The sampler with the order that the window is from, and the generator that
    /// a shuffle leaves.
    open spec fn may_leave(
        &self,
        after: &Self,
        all_ids: Seq<Id::V>,
        iteration: usize,
        r: Result<Vec<Id>>,
    ) -> bool {
        match r {
            Ok(_) => self.served(all_ids, iteration, *after),
            Err(_) => *after == *self,
        }
    }

    fn next_batch_ids(&mut self, all_ids: &[Id], state: &GEPAState<Id>) -> (r: Result<Vec<Id>>)
        ensures
            final(self).wf(),
            final(self).minibatch_size == old(self).minibatch_size,
            match r {
                Ok(batch) => {
                    let size = old(self).minibatch_size as int;
                    let list = views(final(self).shuffled_ids@);
                    &&& old(self).served(views(all_ids@), state.i, *final(self))
                    &&& list == old(self).order_for(views(all_ids@), state.i)
                    &&& old(self).stale(all_ids@.len(), state.i) ==> epoch_order(
                        list,
                        views(all_ids@),
                        size,
                    )
                    &&& window_of(list, size, state.i, views(batch@))
                },
                Err(_) => *final(self) == *old(self),
            },
    {
        let n: usize = all_ids.len();
        if n == 0 {
            return Err(
                GEPAError::EmptyDataset(
                    "Cannot sample a minibatch from an empty loader".to_owned(),
                ),
            );
        }
        let iteration: usize = if state.i == BEFORE_FIRST_ITERATION {
            0
        } else {
            state.i
        };
        let size: usize = self.minibatch_size;
        let base: usize = iteration * size;
        let current: usize = if self.epoch.is_none() || self.shuffled_ids.len() == 0 {
            0
        } else {
            base / self.shuffled_ids.len()
        };
        let stale = match self.epoch {
            None => true,
            Some(epoch) => self.shuffled_ids.len() == 0 || n != self.last_trainset_size || current
                > epoch,
        };
        if stale {
            self.epoch = Some(current);
            self.update_shuffled(all_ids);
            proof {
                lemma_padded(n as int, size as int);
            }
        }
        let len: usize = self.shuffled_ids.len();
        proof {
            lemma_window(iteration as int, size as int, len as int);
        }
        let start: usize = base % len;
        let mut batch: Vec<Id> = Vec::new();
        let mut k: usize = 0;
        while k < size
            invariant
                k <= size,
                start + size <= self.shuffled_ids@.len(),
                batch@.len() == k,
                forall|j: int|
                    0 <= j < k ==> (#[trigger] batch@[j])@ == self.shuffled_ids@[start + j]@,
            decreases size - k,
        {
            assert(start + k < self.shuffled_ids.len());
            batch.push(self.shuffled_ids[start + k].duplicate());
            k += 1;
        }
        assert(views(batch@) =~= views(self.shuffled_ids@).subrange(
            start as int,
            start + size,
        ));
        proof {
            let list = views(self.shuffled_ids@);
            assert(views(all_ids@).len() == n);
            assert(window_of(
                list,
                old(self).minibatch_size as int,
                state.i,
                views(batch@),
            ));
            assert(list == old(self).order_for(views(all_ids@), state.i));
        }
        Ok(batch)
    }
}

/// The padded length is a multiple of the size, and not 0.
pub proof fn lemma_padded(n: int, size: int)
    requires
        n > 0,
        size > 0,
    ensures
        padded_len(n, size) % size == 0,
        padded_len(n, size) >= size,
        padded_len(n, size) >= n,
{
    vstd::arithmetic::div_mod::lemma_fundamental_div_mod(n, size);
    let q = n / size;
    let r = n % size;
    assert(0 <= r < size);
    assert(n == size * q + r);
    if r != 0 {
        assert(padded_len(n, size) == size * q + size);
        assert(size * q + size == size * (q + 1)) by (nonlinear_arith);
        vstd::arithmetic::div_mod::lemma_mod_multiples_basic(q + 1, size);
        assert((q + 1) * size == size * (q + 1)) by (nonlinear_arith);
        assert(q >= 0) by (nonlinear_arith)
            requires
                n > 0,
                size > 0,
                n == size * q + r,
                0 <= r < size,
        ;
        assert(size * q >= 0) by (nonlinear_arith)
            requires
                q >= 0,
                size > 0,
        ;
    } else {
        assert(q >= 1) by (nonlinear_arith)
            requires
                n > 0,
                size > 0,
                n == size * q,
        ;
        assert(size * q >= size) by (nonlinear_arith)
            requires
                q >= 1,
                size > 0,
        ;
    }
}

/// A window that starts at a multiple of its size lies in the list.
proof fn lemma_window(i: int, size: int, len: int)
    requires
        i >= 0,
        size > 0,
        len > 0,
        len % size == 0,
    ensures
        0 <= (i * size) % len,
        (i * size) % len + size <= len,
{
    vstd::arithmetic::div_mod::lemma_fundamental_div_mod(len, size);
    let q = len / size;
    assert(len == size * q);
    assert(q >= 1) by (nonlinear_arith)
        requires
            len > 0,
            size > 0,
            len == size * q,
    ;
    vstd::arithmetic::div_mod::lemma_fundamental_div_mod(i, q);
    let w = i % q;
    assert(0 <= w < q);
    let d = i / q;
    assert(i == q * d + w);
    assert(i * size == d * len + w * size) by (nonlinear_arith)
        requires
            i == q * d + w,
            len == size * q,
    ;
    assert(0 <= w * size && w * size + size <= len) by (nonlinear_arith)
        requires
            0 <= w < q,
            size > 0,
            len == size * q,
    ;
    vstd::arithmetic::div_mod::lemma_mod_multiples_vanish(d, w * size, len);
    assert(len * d + w * size == d * len + w * size) by (nonlinear_arith);
    vstd::arithmetic::div_mod::lemma_small_mod((w * size) as nat, len as nat);
}

/// Over the windows of one epoch every example is handed out.
pub proof fn epoch_covers_every_example<K>(list: Seq<K>, ids: Seq<K>, size: int, x: K)
    requires
        size > 0,
        ids.len() > 0,
        epoch_order(list, ids, size),
        ids.contains(x),
    ensures
        exists|w: int|
            0 <= w && (w + 1) * size <= list.len() && (#[trigger] list.subrange(
                w * size,
                (w + 1) * size,
            )).contains(x),
{
    lemma_padded(ids.len() as int, size);
    let first = list.take(ids.len() as int);
    ids.to_multiset_ensures();
    first.to_multiset_ensures();
    assert(ids.to_multiset().count(x) > 0);
    assert(first.contains(x));
    let j = choose|j: int| 0 <= j < first.len() && first[j] == x;
    assert(list[j] == x);
    let w = j / size;
    vstd::arithmetic::div_mod::lemma_fundamental_div_mod(j, size);
    vstd::arithmetic::div_mod::lemma_fundamental_div_mod(list.len() as int, size);
    let q = list.len() as int / size;
    let r = j % size;
    assert(j == size * w + r);
    assert(list.len() == size * q);
    assert(0 <= w && (w + 1) * size <= list.len()) by (nonlinear_arith)
        requires
            j == size * w + r,
            0 <= r < size,
            0 <= j < list.len(),
            list.len() == size * q,
            size > 0,
    ;
    assert(w * size <= j < (w + 1) * size) by (nonlinear_arith)
        requires
            j == size * w + r,
            0 <= r < size,
    ;
    let window = list.subrange(w * size, (w + 1) * size);
    assert(window[j - w * size] == x);
    assert(window.contains(x));
}

/// The windows of two iterations of the same epoch do not overlap: where no
/// example comes twice, the iterations have no example in common.
pub proof fn windows_do_not_overlap<K>(
    list: Seq<K>,
    size: int,
    i: usize,
    j: usize,
    first: Seq<K>,
    second: Seq<K>,
    x: K,
)
    requires
        size > 0,
        list.len() > 0,
        list.no_duplicates(),
        rank(i) < rank(j),
        (rank(i) * size) / list.len() as int == (rank(j) * size) / list.len() as int,
        window_of(list, size, i, first),
        window_of(list, size, j, second),
        first.contains(x),
    ensures
        !second.contains(x),
{
    let n = list.len() as int;
    let a = rank(i) * size;
    let b = rank(j) * size;
    vstd::arithmetic::div_mod::lemma_fundamental_div_mod(a, n);
    vstd::arithmetic::div_mod::lemma_fundamental_div_mod(b, n);
    assert(b >= a + size) by (nonlinear_arith)
        requires
            a == rank(i) * size,
            b == rank(j) * size,
            rank(i) + 1 <= rank(j),
            size > 0,
    ;
    assert(b % n >= a % n + size);
    if second.contains(x) {
        let p = choose|p: int| 0 <= p < first.len() && first[p] == x;
        let q = choose|q: int| 0 <= q < second.len() && second[q] == x;
        assert(list[a % n + p] == x);
        assert(list[b % n + q] == x);
        assert(a % n + p != b % n + q);
    }
}

/// Samplers that are alike give the same batch, and stay alike.
pub proof fn alike_samplers_give_equal_batches<Id: DataId>(
    a: EpochShuffledSampler<Id>,
    b: EpochShuffledSampler<Id>,
    all_ids: Seq<Id::V>,
    iteration: usize,
    a_after: EpochShuffledSampler<Id>,
    b_after: EpochShuffledSampler<Id>,
    a_batch: Seq<Id::V>,
    b_batch: Seq<Id::V>,
)
    requires
        a.alike(b),
        a.served(all_ids, iteration, a_after),
        b.served(all_ids, iteration, b_after),
        a.draws(all_ids, iteration, a_batch),
        b.draws(all_ids, iteration, b_batch),
    ensures
        a_batch == b_batch,
        a_after.alike(b_after),
{
    assert(views(a.shuffled_ids@).len() == views(b.shuffled_ids@).len());
    assert(a.epoch_at(iteration) == b.epoch_at(iteration));
    assert(a.stale(all_ids.len(), iteration) == b.stale(all_ids.len(), iteration));
}

/// Whether `samplers` are one sampler before and after each of a series of draws,
/// and `batches` what the draws gave.
pub open spec fn series<Id: DataId>(
    samplers: Seq<EpochShuffledSampler<Id>>,
    ids: Seq<Seq<Id::V>>,
    iterations: Seq<usize>,
    batches: Seq<Seq<Id::V>>,
) -> bool {
    &&& ids.len() == iterations.len()
    &&& batches.len() == iterations.len()
    &&& samplers.len() == iterations.len() + 1
    &&& forall|n: int|
        0 <= n < iterations.len() ==> {
            &&& (#[trigger] samplers[n]).served(ids[n], iterations[n], samplers[n + 1])
            &&& samplers[n].draws(ids[n], iterations[n], batches[n])
        }
}

/// Two samplers with the same minibatch size and the same seed give the same
/// batches, as long as they are asked for the same iterations over the same
/// examples.
pub proof fn equal_seeds_give_equal_batches<Id: DataId>(
    minibatch_size: usize,
    seed: u64,
    ids: Seq<Seq<Id::V>>,
    iterations: Seq<usize>,
    a: Seq<EpochShuffledSampler<Id>>,
    b: Seq<EpochShuffledSampler<Id>>,
    a_batches: Seq<Seq<Id::V>>,
    b_batches: Seq<Seq<Id::V>>,
)
    requires
        series(a, ids, iterations, a_batches),
        series(b, ids, iterations, b_batches),
        a[0].unused(minibatch_size, seed),
        b[0].unused(minibatch_size, seed),
    ensures
        a_batches == b_batches,
{
    assert forall|n: int| 0 <= n < iterations.len() implies a_batches[n] == b_batches[n] by {
        lemma_series_alike(minibatch_size, seed, ids, iterations, a, b, a_batches, b_batches, n);
        alike_samplers_give_equal_batches(
            a[n],
            b[n],
            ids[n],
            iterations[n],
            a[n + 1],
            b[n + 1],
            a_batches[n],
            b_batches[n],
        );
    }
    assert(a_batches =~= b_batches);
}

proof fn lemma_series_alike<Id: DataId>(
    minibatch_size: usize,
    seed: u64,
    ids: Seq<Seq<Id::V>>,
    iterations: Seq<usize>,
    a: Seq<EpochShuffledSampler<Id>>,
    b: Seq<EpochShuffledSampler<Id>>,
    a_batches: Seq<Seq<Id::V>>,
    b_batches: Seq<Seq<Id::V>>,
    n: int,
)
    requires
        series(a, ids, iterations, a_batches),
        series(b, ids, iterations, b_batches),
        a[0].unused(minibatch_size, seed),
        b[0].unused(minibatch_size, seed),
        0 <= n <= iterations.len(),
    ensures
        a[n].alike(b[n]),
    decreases n,
{
    if n == 0 {
        assert(views(a[0].shuffled_ids@) =~= views(b[0].shuffled_ids@));
    } else {
        lemma_series_alike(
            minibatch_size,
            seed,
            ids,
            iterations,
            a,
            b,
            a_batches,
            b_batches,
            n - 1,
        );
        assert(a[n - 1].served(ids[n - 1], iterations[n - 1], a[n]));
        assert(b[n - 1].served(ids[n - 1], iterations[n - 1], b[n]));
        alike_samplers_give_equal_batches(
            a[n - 1],
            b[n - 1],
            ids[n - 1],
            iterations[n - 1],
            a[n],
            b[n],
            a_batches[n - 1],
            b_batches[n - 1],
        );
    }
}

} // verus!
