//! A map that keeps its keys in the order in which they came.
//!
//! The keys are compared by their views, so a key may be a string, a pair or
//! any type that implements [`MapKey`].
use vstd::prelude::*;

verus! {

/// A type whose values can be told apart and copied by their views.
pub trait MapKey: View + Sized {
    /// Whether the two have the same view.
    fn same(&self, other: &Self) -> (b: bool)
        ensures
            b == (self@ == other@),
    ;

    /// A second value with the same view.
    fn duplicate(&self) -> (r: Self)
        ensures
            r@ == self@,
    ;
}

impl MapKey for usize {
    fn same(&self, other: &Self) -> (b: bool) {
        *self == *other
    }

    fn duplicate(&self) -> (r: Self) {
        *self
    }
}

impl MapKey for u32 {
    fn same(&self, other: &Self) -> (b: bool) {
        *self == *other
    }

    fn duplicate(&self) -> (r: Self) {
        *self
    }
}

impl MapKey for u64 {
    fn same(&self, other: &Self) -> (b: bool) {
        *self == *other
    }

    fn duplicate(&self) -> (r: Self) {
        *self
    }
}

impl MapKey for String {
    fn same(&self, other: &Self) -> (b: bool) {
        *self == *other
    }

    fn duplicate(&self) -> (r: Self) {
        self.clone()
    }
}

impl<A: MapKey, B: MapKey> MapKey for (A, B) {
    fn same(&self, other: &Self) -> (b: bool) {
        self.0.same(&other.0) && self.1.same(&other.1)
    }

    fn duplicate(&self) -> (r: Self) {
        (self.0.duplicate(), self.1.duplicate())
    }
}

/// The views of a list of keys.
pub open spec fn views<K: View>(keys: Seq<K>) -> Seq<K::V> {
    Seq::new(keys.len(), |i: int| keys[i]@)
}

/// A map with distinct keys, in the order in which they were first inserted.
#[derive(Debug)]
pub struct KeyMap<K: MapKey, V> {
    keys: Vec<K>,
    values: Vec<V>,
}

impl<K: MapKey, V: Clone> Clone for KeyMap<K, V> {
    fn clone(&self) -> (m: Self)
        ensures
            m.key_seq() == self.key_seq(),
            m.value_seq().len() == self.value_seq().len(),
            forall|i: int|
                0 <= i < self.value_seq().len() ==> cloned(
                    #[trigger] self.value_seq()[i],
                    m.value_seq()[i],
                ),
    {
        let mut keys: Vec<K> = Vec::new();
        let mut i: usize = 0;
        while i < self.keys.len()
            invariant
                i <= self.keys@.len(),
                keys@.len() == i,
                forall|j: int| 0 <= j < i ==> (#[trigger] keys@[j])@ == self.keys@[j]@,
            decreases self.keys@.len() - i,
        {
            keys.push(self.keys[i].duplicate());
            i += 1;
        }
        assert(views(keys@) =~= views(self.keys@));
        KeyMap { keys, values: self.values.clone() }
    }
}

impl<K: MapKey, V> View for KeyMap<K, V> {
    type V = Map<K::V, V>;

    open spec fn view(&self) -> Map<K::V, V> {
        Map::new(
            |k: K::V| self.key_seq().contains(k),
            |k: K::V| self.value_seq()[self.key_seq().index_of(k)],
        )
    }
}

impl<K: MapKey, V> KeyMap<K, V> {
    /// The keys, in order.
    pub closed spec fn key_seq(&self) -> Seq<K::V> {
        views(self.keys@)
    }

    /// The values, in the order of their keys.
    pub closed spec fn value_seq(&self) -> Seq<V> {
        self.values@
    }

    /// No key occurs twice, and every key has its value.
    pub open spec fn wf(&self) -> bool {
        &&& self.key_seq().no_duplicates()
        &&& self.key_seq().len() == self.value_seq().len()
    }

    /// The map at position `i` of its entries.
    pub proof fn lemma_entry(&self, i: int)
        requires
            self.wf(),
            0 <= i < self.key_seq().len(),
        ensures
            self@.dom().contains(self.key_seq()[i]),
            self@[self.key_seq()[i]] == self.value_seq()[i],
    {
        let k = self.key_seq()[i];
        assert(self.key_seq().contains(k));
        let j = self.key_seq().index_of(k);
        assert(self.key_seq()[j] == k);
        assert(i == j);
    }

    /// Every key of the map has a position.
    pub proof fn lemma_position(&self, k: K::V) -> (i: int)
        requires
            self.wf(),
            self@.dom().contains(k),
        ensures
            0 <= i < self.key_seq().len(),
            self.key_seq()[i] == k,
            self.value_seq()[i] == self@[k],
    {
        self.key_seq().index_of(k)
    }

    /// The domain has as many keys as there are entries.
    pub proof fn lemma_size(&self)
        requires
            self.wf(),
        ensures
            self@.dom() =~= self.key_seq().to_set(),
            self@.dom().finite(),
            self@.dom().len() == self.key_seq().len(),
    {
        self.key_seq().unique_seq_to_set();
        assert(self@.dom() =~= self.key_seq().to_set());
    }

    /// Two maps with the same entries in the same order hold the same.
    pub proof fn lemma_same_entries(&self, other: &Self)
        requires
            self.key_seq() == other.key_seq(),
            self.value_seq() == other.value_seq(),
        ensures
            self@ == other@,
            self.wf() == other.wf(),
    {
        assert(self@ =~= other@);
    }

    /// The key at position `i` is not among the keys before it.
    pub proof fn lemma_fresh<W>(&self, part: &KeyMap<K, W>, i: int)
        requires
            self.wf(),
            part.wf(),
            0 <= i < self.key_seq().len(),
            part.key_seq() == self.key_seq().take(i),
        ensures
            !part@.dom().contains(self.key_seq()[i]),
    {
        if part@.dom().contains(self.key_seq()[i]) {
            let j = part.lemma_position(self.key_seq()[i]);
            assert(self.key_seq()[j] == self.key_seq()[i]);
        }
    }

    /// The first `n` entries.
    pub open spec fn first(&self, n: int) -> Map<K::V, V> {
        Map::new(|k: K::V| self.key_seq().take(n).contains(k), |k: K::V| self@[k])
    }

    /// One more entry adds its key and value.
    pub proof fn lemma_first(&self, i: int)
        requires
            self.wf(),
            0 <= i < self.key_seq().len(),
        ensures
            !self.first(i).dom().contains(self.key_seq()[i]),
            self.first(i + 1) == self.first(i).insert(self.key_seq()[i], self.value_seq()[i]),
    {
        let k = self.key_seq()[i];
        self.lemma_entry(i);
        let before = self.key_seq().take(i);
        let after = self.key_seq().take(i + 1);
        assert(after =~= before.push(k));
        assert(!before.contains(k)) by {
            if before.contains(k) {
                let j = choose|j: int| 0 <= j < before.len() && before[j] == k;
                assert(self.key_seq()[j] == self.key_seq()[i]);
            }
        }
        assert forall|x: K::V| after.contains(x) <==> before.contains(x) || x == k by {
            if before.contains(x) {
                let j = choose|j: int| 0 <= j < before.len() && before[j] == x;
                assert(after[j] == x);
            }
            if x == k {
                assert(after[i] == x);
            }
        }
        assert(self.first(i + 1) =~= self.first(i).insert(k, self.value_seq()[i]));
    }

    /// No entries are empty, and all entries are the map.
    pub proof fn lemma_all(&self)
        requires
            self.wf(),
        ensures
            self.first(0) == Map::<K::V, V>::empty(),
            self.first(self.key_seq().len() as int) == self@,
    {
        assert(self.key_seq().take(self.key_seq().len() as int) =~= self.key_seq());
        assert(self.first(self.key_seq().len() as int) =~= self@);
        assert(self.first(0) =~= Map::<K::V, V>::empty());
    }

    /// An empty map.
    pub fn new() -> (m: Self)
        ensures
            m.wf(),
            m.key_seq() == Seq::<K::V>::empty(),
            m.value_seq() == Seq::<V>::empty(),
            m@ == Map::<K::V, V>::empty(),
    {
        let m = KeyMap { keys: Vec::new(), values: Vec::new() };
        assert(m.key_seq() =~= Seq::<K::V>::empty());
        assert(m@ =~= Map::<K::V, V>::empty());
        m
    }

    /// The number of entries.
    pub fn len(&self) -> (n: usize)
        requires
            self.wf(),
        ensures
            n == self.key_seq().len(),
            n == self@.dom().len(),
            self@.dom().finite(),
    {
        proof {
            self.lemma_size();
        }
        self.keys.len()
    }

    /// Whether there is no entry.
    pub fn is_empty(&self) -> (b: bool)
        requires
            self.wf(),
        ensures
            b == (self.key_seq().len() == 0),
            b == (self@.dom() =~= Set::empty()),
    {
        proof {
            self.lemma_size();
            if self.key_seq().len() > 0 {
                self.lemma_entry(0);
            }
        }
        self.keys.len() == 0
    }

    /// The position of `key`.
    pub fn position(&self, key: &K) -> (r: Option<usize>)
        requires
            self.wf(),
        ensures
            match r {
                Some(i) => i < self.key_seq().len() && self.key_seq()[i as int] == key@
                    && self@.dom().contains(key@) && self@[key@] == self.value_seq()[i as int],
                None => !self@.dom().contains(key@) && !self.key_seq().contains(key@),
            },
    {
        let mut i: usize = 0;
        while i < self.keys.len()
            invariant
                self.wf(),
                i <= self.keys.len(),
                forall|j: int| 0 <= j < i ==> self.key_seq()[j] != key@,
            decreases self.keys.len() - i,
        {
            assert(self.key_seq()[i as int] == self.keys@[i as int]@);
            if self.keys[i].same(key) {
                proof {
                    self.lemma_entry(i as int);
                }
                return Some(i);
            }
            i += 1;
        }
        None
    }

    /// The key at position `i`.
    pub fn key_at(&self, i: usize) -> (k: &K)
        requires
            i < self.key_seq().len(),
        ensures
            k@ == self.key_seq()[i as int],
    {
        &self.keys[i]
    }

    /// The value at position `i`.
    pub fn value_at(&self, i: usize) -> (v: &V)
        requires
            i < self.value_seq().len(),
        ensures
            *v == self.value_seq()[i as int],
    {
        &self.values[i]
    }

    /// The value of `key`.
    pub fn get(&self, key: &K) -> (r: Option<&V>)
        requires
            self.wf(),
        ensures
            match r {
                Some(v) => self@.dom().contains(key@) && *v == self@[key@],
                None => !self@.dom().contains(key@),
            },
    {
        match self.position(key) {
            Some(i) => Some(&self.values[i]),
            None => None,
        }
    }

    /// Whether there is a value for `key`.
    pub fn contains_key(&self, key: &K) -> (b: bool)
        requires
            self.wf(),
        ensures
            b == self@.dom().contains(key@),
    {
        self.position(key).is_some()
    }

    /// Give `key` the value `value`. A new key comes last; a known one keeps
    /// its place.
    pub fn insert(&mut self, key: K, value: V)
        requires
            old(self).wf(),
        ensures
            final(self).wf(),
            final(self)@ == old(self)@.insert(key@, value),
            !old(self)@.dom().contains(key@) ==> {
                &&& final(self).key_seq() == old(self).key_seq().push(key@)
                &&& final(self).value_seq() == old(self).value_seq().push(value)
            },
            old(self)@.dom().contains(key@) ==> {
                &&& final(self).key_seq() == old(self).key_seq()
                &&& final(self).value_seq().len() == old(self).value_seq().len()
                &&& forall|i: int|
                    0 <= i < old(self).key_seq().len() ==> #[trigger] final(self).value_seq()[i]
                        == if old(self).key_seq()[i] == key@ {
                        value
                    } else {
                        old(self).value_seq()[i]
                    }
            },
    {
        let ghost before = *self;
        match self.position(&key) {
            Some(i) => {
                self.values.set(i, value);
                proof {
                    assert(self.key_seq() == before.key_seq());
                    assert(self.value_seq() == before.value_seq().update(i as int, value));
                    assert forall|k: K::V| self@.dom().contains(k) implies self@[k]
                        == before@.insert(key@, value)[k] by {
                        let p = self.lemma_position(k);
                        before.lemma_entry(p);
                    }
                    assert(self@ =~= before@.insert(key@, value));
                }
            },
            None => {
                let ghost kv = key@;
                self.keys.push(key);
                self.values.push(value);
                proof {
                    assert(self.key_seq() =~= before.key_seq().push(kv));
                    assert(self.value_seq() == before.value_seq().push(value));
                    assert forall|k: K::V| self@.dom().contains(k) == before@.insert(
                        kv,
                        value,
                    ).dom().contains(k) by {
                        if before.key_seq().contains(k) {
                            let p = before.lemma_position(k);
                            assert(self.key_seq()[p] == k);
                        }
                        if k == kv {
                            assert(self.key_seq()[before.key_seq().len() as int] == k);
                        }
                    }
                    assert forall|k: K::V| self@.dom().contains(k) implies self@[k]
                        == before@.insert(kv, value)[k] by {
                        let p = self.lemma_position(k);
                        if p < before.key_seq().len() {
                            before.lemma_entry(p);
                            assert(before.key_seq().contains(k));
                        }
                    }
                    assert(self@ =~= before@.insert(kv, value));
                }
            },
        }
    }

    /// Replace the value at position `i`.
    pub fn set_value(&mut self, i: usize, value: V)
        requires
            old(self).wf(),
            i < old(self).key_seq().len(),
        ensures
            final(self).wf(),
            final(self).key_seq() == old(self).key_seq(),
            final(self).value_seq() == old(self).value_seq().update(i as int, value),
            final(self)@ == old(self)@.insert(old(self).key_seq()[i as int], value),
    {
        let ghost before = *self;
        self.values.set(i, value);
        proof {
            let key = before.key_seq()[i as int];
            before.lemma_entry(i as int);
            assert forall|k: K::V| self@.dom().contains(k) implies self@[k] == before@.insert(
                key,
                value,
            )[k] by {
                let p = self.lemma_position(k);
                before.lemma_entry(p);
            }
            assert(self@ =~= before@.insert(key, value));
        }
    }

    /// Insert every entry of `other`.
    pub fn extend(&mut self, other: Self)
        requires
            old(self).wf(),
            other.wf(),
        ensures
            final(self).wf(),
            final(self)@ == old(self)@.union_prefer_right(other@),
    {
        let ghost before = self@;
        let ghost source = other;
        let KeyMap { keys, values } = other;
        let mut i: usize = 0;
        assert(self@ =~= before.union_prefer_right(source.first(0)));
        for v in it: values.into_iter()
            invariant
                source.wf(),
                views(keys@) == source.key_seq(),
                it.seq() == source.value_seq(),
                i == it.index(),
                i <= keys@.len(),
                self.wf(),
                self@ == before.union_prefer_right(source.first(i as int)),
        {
            proof {
                source.lemma_first(i as int);
                assert(source.value_seq()[i as int] == v);
                assert(source.key_seq()[i as int] == keys@[i as int]@);
            }
            self.insert(keys[i].duplicate(), v);
            assert(self@ =~= before.union_prefer_right(source.first(i + 1)));
            assert(i < keys.len());
            i += 1;
        }
        proof {
            source.lemma_all();
        }
    }

    /// Remove every entry.
    pub fn clear(&mut self)
        ensures
            final(self).wf(),
            final(self).key_seq() == Seq::<K::V>::empty(),
            final(self)@ == Map::<K::V, V>::empty(),
    {
        self.keys.clear();
        self.values.clear();
        assert(self.key_seq() =~= Seq::<K::V>::empty());
        assert(self@ =~= Map::<K::V, V>::empty());
    }
}

/// Whether the two maps have the same entries in the same order.
pub open spec fn same_entries<K: MapKey, V>(a: KeyMap<K, V>, b: KeyMap<K, V>) -> bool {
    &&& a.key_seq() == b.key_seq()
    &&& a.value_seq() == b.value_seq()
}

/// A map with the same entries in the same order.
pub fn copy_map<K: MapKey, V: Copy>(m: &KeyMap<K, V>) -> (r: KeyMap<K, V>)
    requires
        m.wf(),
    ensures
        r.wf(),
        same_entries(r, *m),
        r@ == m@,
{
    let n: usize = m.len();
    let mut r: KeyMap<K, V> = KeyMap::new();
    let mut i: usize = 0;
    assert(m.key_seq().take(0) =~= r.key_seq());
    assert(m.value_seq().take(0) =~= r.value_seq());
    while i < n
        invariant
            m.wf(),
            r.wf(),
            n == m.key_seq().len(),
            i <= n,
            r.key_seq() == m.key_seq().take(i as int),
            r.value_seq() == m.value_seq().take(i as int),
        decreases n - i,
    {
        let key = m.key_at(i).duplicate();
        proof {
            m.lemma_fresh(&r, i as int);
        }
        r.insert(key, *m.value_at(i));
        assert(m.key_seq().take(i + 1) =~= r.key_seq());
        assert(m.value_seq().take(i + 1) =~= r.value_seq());
        i += 1;
    }
    assert(r.key_seq() =~= m.key_seq());
    assert(r.value_seq() =~= m.value_seq());
    proof {
        r.lemma_same_entries(m);
    }
    r
}

/// The keys and values of a list of pairs.
pub open spec fn pair_keys<K: MapKey, V>(pairs: Seq<(K, V)>) -> Seq<K::V> {
    Seq::new(pairs.len(), |i: int| pairs[i].0@)
}

/// The values of a list of pairs.
pub open spec fn pair_values<K, V>(pairs: Seq<(K, V)>) -> Seq<V> {
    Seq::new(pairs.len(), |i: int| pairs[i].1)
}

/// The entries of a map as a list of pairs, in order.
pub fn to_pairs<K: MapKey, V: Copy>(m: &KeyMap<K, V>) -> (pairs: Vec<(K, V)>)
    requires
        m.wf(),
    ensures
        pair_keys(pairs@) == m.key_seq(),
        pair_values(pairs@) == m.value_seq(),
{
    let n: usize = m.len();
    let mut pairs: Vec<(K, V)> = Vec::new();
    let mut i: usize = 0;
    while i < n
        invariant
            m.wf(),
            n == m.key_seq().len(),
            i <= n,
            pairs@.len() == i,
            forall|j: int| 0 <= j < i ==> (#[trigger] pairs@[j]).0@ == m.key_seq()[j],
            forall|j: int| 0 <= j < i ==> (#[trigger] pairs@[j]).1 == m.value_seq()[j],
        decreases n - i,
    {
        pairs.push((m.key_at(i).duplicate(), *m.value_at(i)));
        i += 1;
    }
    assert(pair_keys(pairs@) =~= m.key_seq());
    assert(pair_values(pairs@) =~= m.value_seq());
    pairs
}

/// The map of the first `n` pairs; a later value of a key replaces an earlier
/// one.
pub open spec fn mapped<K: MapKey, V>(pairs: Seq<(K, V)>, n: int) -> Map<K::V, V>
    decreases n,
{
    if n <= 0 {
        Map::empty()
    } else {
        mapped(pairs, n - 1).insert(pairs[n - 1].0@, pairs[n - 1].1)
    }
}

/// The map of a list of pairs. Where no key occurs twice, it has the pairs as
/// its entries, in order.
pub fn from_pairs<K: MapKey, V>(pairs: Vec<(K, V)>) -> (m: KeyMap<K, V>)
    ensures
        m.wf(),
        m@ == mapped(pairs@, pairs@.len() as int),
        pair_keys(pairs@).no_duplicates() ==> m.key_seq() == pair_keys(pairs@) && m.value_seq()
            == pair_values(pairs@),
        forall|i: int|
            0 <= i < m.value_seq().len() ==> pair_values(pairs@).contains(
                #[trigger] m.value_seq()[i],
            ),
{
    let ghost all = pairs@;
    let ghost keys = pair_keys(all);
    let ghost values = pair_values(all);
    let mut m: KeyMap<K, V> = KeyMap::new();
    let ghost mut i: int = 0;
    assert(keys.take(0) =~= m.key_seq());
    assert(values.take(0) =~= m.value_seq());
    for pair in it: pairs.into_iter()
        invariant
            it.seq() == all,
            i == it.index(),
            keys == pair_keys(all),
            values == pair_values(all),
            m.wf(),
            m@ == mapped(all, i),
            keys.no_duplicates() ==> m.key_seq() == keys.take(i) && m.value_seq() == values.take(i),
            forall|j: int| 0 <= j < m.value_seq().len() ==> values.contains(#[trigger] m.value_seq()[j]),
    {
        let (k, v) = pair;
        let ghost before = m;
        proof {
            assert(all[i] == (k, v));
            assert(keys[i] == k@);
            assert(values[i] == v);
            if keys.no_duplicates() && m@.dom().contains(k@) {
                let j = m.lemma_position(k@);
                assert(keys[j] == keys[i]);
            }
        }
        m.insert(k, v);
        proof {
            assert(keys.take(i + 1) =~= keys.take(i).push(keys[i]));
            assert(values.take(i + 1) =~= values.take(i).push(values[i]));
            assert forall|j: int| 0 <= j < m.value_seq().len() implies values.contains(
                #[trigger] m.value_seq()[j],
            ) by {
                if j < before.value_seq().len() {
                    assert(values.contains(before.value_seq()[j]));
                }
            }
            i = i + 1;
        }
    }
    assert(keys.take(i) =~= keys);
    assert(values.take(i) =~= values);
    m
}

/// A map that is written out as pairs and read back has the same entries.
pub proof fn pairs_give_back_the_map<K: MapKey, V>(m: KeyMap<K, V>, pairs: Seq<(K, V)>, back: KeyMap<K, V>)
    requires
        m.wf(),
        pair_keys(pairs) == m.key_seq(),
        pair_values(pairs) == m.value_seq(),
        pair_keys(pairs).no_duplicates() ==> back.key_seq() == pair_keys(pairs)
            && back.value_seq() == pair_values(pairs),
    ensures
        same_entries(back, m),
        back@ == m@,
{
    back.lemma_same_entries(&m);
}

} // verus!
