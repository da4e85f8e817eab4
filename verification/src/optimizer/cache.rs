//! The fingerprint of a candidate, and a cache of evaluation results by it.
use serde_json::Value;
use sha2::{Digest, Sha256};
use vstd::prelude::*;
use vstd::relations::{antisymmetric, reflexive, sorted_by, strongly_connected, total_ordering, transitive};

use crate::json_text::{json_lists_differ, json_pairs, json_pairs_text};
use crate::keyed::{copy_map, from_pairs, mapped, pair_keys, pair_values, views, KeyMap};
use crate::optimizer::adapter::{
    candidate_entries, candidate_pairs, distinct_names, pair_views, Candidate, ObjectiveScores,
};
use crate::optimizer::data_loader::DataId;
use crate::score::Score;
use crate::text::{lemma_text_le_total, lemma_text_le_transitive, not_after, text_le};

verus! {

broadcast use vstd::string::group_string_axioms;

/// `serde_json::Value`, carried as it is.
#[verifier::external_type_specification]
#[verifier::external_body]
pub struct ExJsonValue(Value);

/// `serde_json::Value::clone`: the same value.
pub assume_specification[ <Value as Clone>::clone ](v: &Value) -> (r: Value)
    ensures
        r == *v,
;

/// The order of components by their names, then by their texts.
pub open spec fn entry_le(a: (Seq<char>, Seq<char>), b: (Seq<char>, Seq<char>)) -> bool {
    if a.0 == b.0 {
        text_le(a.1, b.1)
    } else {
        text_le(a.0, b.0)
    }
}

/// The order of components is total.
pub proof fn lemma_entry_le_total()
    ensures
        total_ordering(|a: (Seq<char>, Seq<char>), b: (Seq<char>, Seq<char>)| entry_le(a, b)),
{
    let leq = |a: (Seq<char>, Seq<char>), b: (Seq<char>, Seq<char>)| entry_le(a, b);
    assert(reflexive(leq)) by {
        assert forall|x: (Seq<char>, Seq<char>)| #[trigger] leq(x, x) by {
            lemma_text_le_total(x.1, x.1);
        }
    }
    assert(antisymmetric(leq)) by {
        assert forall|x: (Seq<char>, Seq<char>), y: (Seq<char>, Seq<char>)| #[trigger]
            leq(x, y) && #[trigger] leq(y, x) implies x == y by {
            lemma_text_le_total(x.0, y.0);
            lemma_text_le_total(x.1, y.1);
        }
    }
    assert(transitive(leq)) by {
        assert forall|
            x: (Seq<char>, Seq<char>),
            y: (Seq<char>, Seq<char>),
            z: (Seq<char>, Seq<char>),
        | #[trigger] leq(x, y) && #[trigger] leq(y, z) implies leq(x, z) by {
            if x.0 == y.0 && y.0 == z.0 {
                lemma_text_le_transitive(x.1, y.1, z.1);
            } else if x.0 != y.0 && y.0 != z.0 {
                lemma_text_le_transitive(x.0, y.0, z.0);
                if x.0 == z.0 {
                    lemma_text_le_total(x.0, y.0);
                }
            }
        }
    }
    assert(strongly_connected(leq)) by {
        assert forall|x: (Seq<char>, Seq<char>), y: (Seq<char>, Seq<char>)| #[trigger]
            leq(x, y) || #[trigger] leq(y, x) by {
            lemma_text_le_total(x.0, y.0);
            lemma_text_le_total(x.1, y.1);
        }
    }
}

/// The components, ordered by their names.
pub open spec fn sorted_entries(entries: Seq<(Seq<char>, Seq<char>)>) -> Seq<
    (Seq<char>, Seq<char>),
> {
    entries.sort_by(|a: (Seq<char>, Seq<char>), b: (Seq<char>, Seq<char>)| entry_le(a, b))
}

/// The pairs, ordered by their first parts, which are distinct.
fn sort_pairs(pairs: &Vec<(String, String)>) -> (out: Vec<(String, String)>)
    requires
        distinct_names(pair_views(pairs@)),
    ensures
        pair_views(out@) == sorted_entries(pair_views(pairs@)),
{
    broadcast use vstd::seq_lib::group_to_multiset_ensures;

    let ghost leq = |a: (Seq<char>, Seq<char>), b: (Seq<char>, Seq<char>)| entry_le(a, b);
    let ghost all = pair_views(pairs@);
    let mut out: Vec<(String, String)> = Vec::new();
    let mut n: usize = 0;
    assert(pair_views(out@) =~= all.take(0));
    while n < pairs.len()
        invariant
            all == pair_views(pairs@),
            distinct_names(all),
            leq == (|a: (Seq<char>, Seq<char>), b: (Seq<char>, Seq<char>)| entry_le(a, b)),
            n <= pairs@.len(),
            pair_views(out@).to_multiset() == all.take(n as int).to_multiset(),
            sorted_by(pair_views(out@), leq),
        decreases pairs@.len() - n,
    {
        let ghost before = pair_views(out@);
        let ghost p = all[n as int];
        let mut i: usize = 0;
        while i < out.len() && not_after(out[i].0.as_str(), pairs[n].0.as_str())
            invariant
                n < pairs@.len(),
                p == (pairs@[n as int].0@, pairs@[n as int].1@),
                before == pair_views(out@),
                i <= out@.len(),
                forall|j: int| 0 <= j < i ==> text_le((#[trigger] before[j]).0, p.0),
            decreases out@.len() - i,
        {
            i += 1;
        }
        out.insert(i, (pairs[n].0.clone(), pairs[n].1.clone()));
        proof {
            let after = pair_views(out@);
            assert(after =~= before.insert(i as int, p));
            vstd::seq_lib::to_multiset_insert(before, i as int, p);
            assert(all.take(n + 1) =~= all.take(n as int).push(p));
            vstd::seq_lib::to_multiset_build(all.take(n as int), p);
            assert forall|j: int| 0 <= j < before.len() implies (#[trigger] before[j]).0 != p.0 by {
                before.to_multiset_ensures();
                all.take(n as int).to_multiset_ensures();
                assert(before.contains(before[j]));
                assert(before.to_multiset().count(before[j]) > 0);
                assert(all.take(n as int).contains(before[j]));
                let k = choose|k: int| 0 <= k < n && all.take(n as int)[k] == before[j];
                assert(all[k].0 != all[n as int].0);
            }
            assert forall|a: int, b: int| 0 <= a < b < after.len() implies #[trigger] leq(
                after[a],
                after[b],
            ) by {
                if b == i {
                    assert(after[a] == before[a]);
                } else if a == i {
                    assert(after[b] == before[b - 1]);
                    let q = before[i as int];
                    assert(!text_le(q.0, p.0));
                    lemma_text_le_total(q.0, p.0);
                    assert(entry_le(p, q));
                    if b - 1 > i {
                        assert(leq(before[i as int], before[b - 1]));
                        lemma_entry_le_total();
                        assert(leq(p, q));
                        assert(leq(p, before[b - 1]));
                    }
                } else {
                    let a0 = if a < i {
                        a
                    } else {
                        a - 1
                    };
                    let b0 = if b < i {
                        b
                    } else {
                        b - 1
                    };
                    assert(leq(before[a0], before[b0]));
                }
            }
        }
        n += 1;
    }
    proof {
        assert(all.take(n as int) =~= all);
        lemma_entry_le_total();
        all.lemma_sort_by_ensures(leq);
        vstd::seq_lib::lemma_sorted_unique(pair_views(out@), all.sort_by(leq), leq);
    }
    out
}

/// The SHA-256 digest of a text, in lower-case hexadecimal digits.
pub uninterp spec fn sha256_text(text: Seq<char>) -> Seq<char>;

/// `Sha256::digest` of the text's bytes, written in hexadecimal.
#[verifier::external_body]
fn sha256_hex(text: &str) -> (digest: String)
    ensures
        digest@ == sha256_text(text@),
{
    format!("{:x}", Sha256::digest(text.as_bytes()))
}

/// The fingerprint of a candidate with the given components.
pub open spec fn fingerprint(entries: Seq<(Seq<char>, Seq<char>)>) -> Seq<char> {
    sha256_text(json_pairs_text(sorted_entries(entries)))
}

/// The SHA-256 fingerprint of a candidate. The components are ordered by name
/// first, so the order in which they were inserted makes no difference.
pub fn candidate_hash(candidate: &Candidate) -> (h: String)
    ensures
        h@ == fingerprint(candidate_entries(*candidate)),
{
    let pairs = candidate_pairs(candidate);
    let sorted = sort_pairs(&pairs);
    let serialised = json_pairs(&sorted);
    sha256_hex(serialised.as_str())
}

/// The fingerprint does not depend on the order of the components.
pub proof fn fingerprint_ignores_order(
    a: Seq<(Seq<char>, Seq<char>)>,
    b: Seq<(Seq<char>, Seq<char>)>,
)
    requires
        a.to_multiset() == b.to_multiset(),
    ensures
        fingerprint(a) == fingerprint(b),
{
    let leq = |x: (Seq<char>, Seq<char>), y: (Seq<char>, Seq<char>)| entry_le(x, y);
    lemma_entry_le_total();
    a.lemma_sort_by_ensures(leq);
    b.lemma_sort_by_ensures(leq);
    vstd::seq_lib::lemma_sorted_unique(a.sort_by(leq), b.sort_by(leq), leq);
}

/// What is hashed for the fingerprint tells candidates apart: it is the same only
/// where the components are, but for their order.
pub proof fn fingerprints_are_of_all_components(
    a: Seq<(Seq<char>, Seq<char>)>,
    b: Seq<(Seq<char>, Seq<char>)>,
)
    requires
        json_pairs_text(sorted_entries(a)) == json_pairs_text(sorted_entries(b)),
    ensures
        a.to_multiset() == b.to_multiset(),
{
    let leq = |x: (Seq<char>, Seq<char>), y: (Seq<char>, Seq<char>)| entry_le(x, y);
    lemma_entry_le_total();
    a.lemma_sort_by_ensures(leq);
    b.lemma_sort_by_ensures(leq);
    json_lists_differ(sorted_entries(a), sorted_entries(b));
}

/// What is known of one evaluation of a candidate on one example.
pub struct CachedView {
    /// The raw program output.
    pub output: Value,
    /// The score.
    pub score: Score,
    /// The named objective scores, where there are any.
    pub objectives: Option<Map<Seq<char>, Score>>,
}

/// The cached result of one evaluation of a candidate on one example.
#[derive(Debug, Clone)]
pub struct CachedEvaluation {
    /// The raw program output as JSON.
    pub output: Value,
    /// The score.
    pub score: Score,
    /// The named objective scores, where there are any.
    pub objective_scores: Option<ObjectiveScores>,
}

/// The contents of optional objective scores.
pub open spec fn objectives_view(scores: Option<ObjectiveScores>) -> Option<Map<Seq<char>, Score>> {
    match scores {
        Some(m) => Some(m@),
        None => None,
    }
}

impl View for CachedEvaluation {
    type V = CachedView;

    open spec fn view(&self) -> CachedView {
        CachedView {
            output: self.output,
            score: self.score,
            objectives: objectives_view(self.objective_scores),
        }
    }
}

impl CachedEvaluation {
    /// The objective scores are a map.
    pub open spec fn wf(&self) -> bool {
        self.objective_scores matches Some(m) ==> m.wf()
    }
}

/// Evaluation results by candidate and example.
///
/// The key is the candidate's fingerprint, a colon and the JSON text of the
/// example's identifier.
#[derive(Debug, Clone)]
pub struct EvaluationCache {
    inner: KeyMap<String, CachedEvaluation>,
}

/// The key of a candidate with the given components on an example with the
/// given JSON text.
pub open spec fn cache_key(entries: Seq<(Seq<char>, Seq<char>)>, id: Seq<char>) -> Seq<char> {
    fingerprint(entries) + ":"@ + id
}

impl View for EvaluationCache {
    type V = Map<Seq<char>, CachedView>;

    closed spec fn view(&self) -> Map<Seq<char>, CachedView> {
        self.inner@.map_values(|c: CachedEvaluation| c@)
    }
}

/// The contents of the rows.
pub open spec fn row_views(rows: Seq<ObjectiveScores>) -> Seq<Map<Seq<char>, Score>> {
    Seq::new(rows.len(), |i: int| rows[i]@)
}

/// The contents of optional rows.
pub open spec fn optional_rows(rows: Option<Vec<ObjectiveScores>>) -> Option<
    Seq<Map<Seq<char>, Score>>,
> {
    match rows {
        Some(v) => Some(row_views(v@)),
        None => None,
    }
}

/// The rows are maps.
pub open spec fn rows_wf(rows: Option<Vec<ObjectiveScores>>) -> bool {
    rows matches Some(v) ==> forall|i: int| 0 <= i < v@.len() ==> (#[trigger] v@[i]).wf()
}

/// The entry for position `i` of a batch.
pub open spec fn batch_entry(
    outputs: Seq<Value>,
    scores: Seq<Score>,
    rows: Option<Seq<Map<Seq<char>, Score>>>,
    i: int,
) -> CachedView {
    CachedView {
        output: outputs[i],
        score: scores[i],
        objectives: match rows {
            Some(r) => if i < r.len() {
                Some(r[i])
            } else {
                None
            },
            None => None,
        },
    }
}

/// The cache contents after the first `n` results of a batch were stored.
pub open spec fn stored<Id: DataId>(
    cache: Map<Seq<char>, CachedView>,
    entries: Seq<(Seq<char>, Seq<char>)>,
    ids: Seq<Id::V>,
    outputs: Seq<Value>,
    scores: Seq<Score>,
    rows: Option<Seq<Map<Seq<char>, Score>>>,
    n: int,
) -> Map<Seq<char>, CachedView>
    decreases n,
{
    if n <= 0 {
        cache
    } else {
        stored::<Id>(cache, entries, ids, outputs, scores, rows, n - 1).insert(
            cache_key(entries, Id::json_spec(ids[n - 1])),
            batch_entry(outputs, scores, rows, n - 1),
        )
    }
}

/// Those of the first `n` examples that have no entry in the cache, in order.
pub open spec fn misses<Id: DataId>(
    cache: Map<Seq<char>, CachedView>,
    entries: Seq<(Seq<char>, Seq<char>)>,
    ids: Seq<Id::V>,
    n: int,
) -> Seq<Id::V>
    decreases n,
{
    if n <= 0 {
        seq![]
    } else {
        let before = misses::<Id>(cache, entries, ids, n - 1);
        if cache.dom().contains(cache_key(entries, Id::json_spec(ids[n - 1]))) {
            before
        } else {
            before.push(ids[n - 1])
        }
    }
}

/// Whether `id` is one of the first `n` examples and has an entry.
pub open spec fn is_hit<Id: DataId>(
    cache: Map<Seq<char>, CachedView>,
    entries: Seq<(Seq<char>, Seq<char>)>,
    ids: Seq<Id::V>,
    n: int,
    id: Id::V,
) -> bool {
    &&& exists|i: int| 0 <= i < n && #[trigger] ids[i] == id
    &&& cache.dom().contains(cache_key(entries, Id::json_spec(id)))
}

/// A copy of optional objective scores.
pub fn copy_objectives(scores: &Option<ObjectiveScores>) -> (r: Option<ObjectiveScores>)
    requires
        scores matches Some(m) ==> m.wf(),
    ensures
        r matches Some(m) ==> m.wf(),
        objectives_view(r) == objectives_view(*scores),
{
    match scores {
        Some(m) => Some(copy_map(m)),
        None => None,
    }
}

impl Default for EvaluationCache {
    fn default() -> (cache: EvaluationCache)
        ensures
            cache.wf(),
            cache@ == Map::<Seq<char>, CachedView>::empty(),
    {
        EvaluationCache::new()
    }
}

impl EvaluationCache {
    /// Every key occurs once, and every entry is valid.
    pub closed spec fn wf(&self) -> bool {
        &&& self.inner.wf()
        &&& forall|k: Seq<char>|
            self.inner@.dom().contains(k) ==> (#[trigger] self.inner@[k]).wf()
    }

    /// An empty cache.
    pub fn new() -> (cache: Self)
        ensures
            cache.wf(),
            cache@ == Map::<Seq<char>, CachedView>::empty(),
    {
        let cache = EvaluationCache { inner: KeyMap::new() };
        assert(cache@ =~= Map::<Seq<char>, CachedView>::empty());
        cache
    }

    fn make_key<Id: DataId>(candidate: &Candidate, id: &Id) -> (key: String)
        ensures
            key@ == cache_key(candidate_entries(*candidate), Id::json_spec(id@)),
    {
        let mut key = candidate_hash(candidate);
        key.append(":");
        key.append(id.json_text().as_str());
        key
    }

    /// The cached result, if there is one.
    pub fn get<Id: DataId>(&self, candidate: &Candidate, example_id: &Id) -> (r: Option<
        &CachedEvaluation,
    >)
        requires
            self.wf(),
        ensures
            match r {
                Some(c) => c.wf() && self@.dom().contains(
                    cache_key(candidate_entries(*candidate), Id::json_spec(example_id@)),
                ) && c@ == self@[cache_key(
                    candidate_entries(*candidate),
                    Id::json_spec(example_id@),
                )],
                None => !self@.dom().contains(
                    cache_key(candidate_entries(*candidate), Id::json_spec(example_id@)),
                ),
            },
    {
        let key = Self::make_key(candidate, example_id);
        self.inner.get(&key)
    }

    /// Store one result, in place of an earlier one.
    pub fn put<Id: DataId>(
        &mut self,
        candidate: &Candidate,
        example_id: &Id,
        output: Value,
        score: Score,
        objective_scores: Option<ObjectiveScores>,
    )
        requires
            old(self).wf(),
            objective_scores matches Some(m) ==> m.wf(),
        ensures
            final(self).wf(),
            final(self)@ == old(self)@.insert(
                cache_key(candidate_entries(*candidate), Id::json_spec(example_id@)),
                (CachedView { output, score, objectives: objectives_view(objective_scores) }),
            ),
    {
        let key = Self::make_key(candidate, example_id);
        let entry = CachedEvaluation { output, score, objective_scores };
        let ghost k = key@;
        self.inner.insert(key, entry);
        assert(self@ =~= old(self)@.insert(k, entry@));
    }

    /// The results of those examples that have one, and the other examples in
    /// their order.
    pub fn get_batch<Id: DataId>(&self, candidate: &Candidate, example_ids: &[Id]) -> (r: (
        KeyMap<Id, &CachedEvaluation>,
        Vec<Id>,
    ))
        requires
            self.wf(),
        ensures
            r.0.wf(),
            forall|id: Id::V| #[trigger]
                r.0@.dom().contains(id) <==> is_hit::<Id>(
                    self@,
                    candidate_entries(*candidate),
                    views(example_ids@),
                    example_ids@.len() as int,
                    id,
                ),
            forall|id: Id::V| #[trigger]
                r.0@.dom().contains(id) ==> r.0@[id].wf() && r.0@[id]@ == self@[cache_key(
                    candidate_entries(*candidate),
                    Id::json_spec(id),
                )],
            views(r.1@) == misses::<Id>(
                self@,
                candidate_entries(*candidate),
                views(example_ids@),
                example_ids@.len() as int,
            ),
    {
        let ghost entries = candidate_entries(*candidate);
        let ghost ids = views(example_ids@);
        let mut cached: KeyMap<Id, &CachedEvaluation> = KeyMap::new();
        let mut uncached: Vec<Id> = Vec::new();
        let mut i: usize = 0;
        assert(views(uncached@) =~= Seq::<Id::V>::empty());
        while i < example_ids.len()
            invariant
                self.wf(),
                entries == candidate_entries(*candidate),
                ids == views(example_ids@),
                i <= example_ids@.len(),
                cached.wf(),
                forall|id: Id::V| #[trigger]
                    cached@.dom().contains(id) <==> is_hit::<Id>(self@, entries, ids, i as int, id),
                forall|id: Id::V| #[trigger]
                    cached@.dom().contains(id) ==> cached@[id].wf() && cached@[id]@
                        == self@[cache_key(entries, Id::json_spec(id))],
                views(uncached@) == misses::<Id>(self@, entries, ids, i as int),
            decreases example_ids@.len() - i,
        {
            let id = &example_ids[i];
            assert(ids[i as int] == id@);
            match self.get(candidate, id) {
                Some(entry) => {
                    cached.insert(id.duplicate(), entry);
                },
                None => {
                    let ghost before = uncached@;
                    uncached.push(id.duplicate());
                    assert(views(uncached@) =~= views(before).push(id@));
                },
            }
            assert forall|x: Id::V| #[trigger] cached@.dom().contains(x) <==> is_hit::<Id>(
                self@,
                entries,
                ids,
                i + 1,
                x,
            ) by {
                if is_hit::<Id>(self@, entries, ids, i as int, x) {
                    let j = choose|j: int| 0 <= j < i && #[trigger] ids[j] == x;
                    assert(0 <= j < i + 1 && ids[j] == x);
                }
                if is_hit::<Id>(self@, entries, ids, i + 1, x) {
                    let j = choose|j: int| 0 <= j < i + 1 && #[trigger] ids[j] == x;
                    if j < i {
                        assert(is_hit::<Id>(self@, entries, ids, i as int, x));
                    }
                }
            }
            i += 1;
        }
        (cached, uncached)
    }

    /// Store the results of a batch of examples.
    pub fn put_batch<Id: DataId>(
        &mut self,
        candidate: &Candidate,
        example_ids: &[Id],
        outputs: Vec<Value>,
        scores: Vec<Score>,
        objective_scores: Option<Vec<ObjectiveScores>>,
    )
        requires
            old(self).wf(),
            rows_wf(objective_scores),
            example_ids@.len() <= outputs@.len(),
            example_ids@.len() <= scores@.len(),
        ensures
            final(self).wf(),
            final(self)@ == stored::<Id>(
                old(self)@,
                candidate_entries(*candidate),
                views(example_ids@),
                outputs@,
                scores@,
                optional_rows(objective_scores),
                example_ids@.len() as int,
            ),
    {
        let ghost entries = candidate_entries(*candidate);
        let ghost ids = views(example_ids@);
        let ghost before = self@;
        let ghost rows = optional_rows(objective_scores);
        let mut i: usize = 0;
        while i < example_ids.len()
            invariant
                self.wf(),
                rows_wf(objective_scores),
                entries == candidate_entries(*candidate),
                ids == views(example_ids@),
                rows == optional_rows(objective_scores),
                i <= example_ids@.len() <= outputs@.len(),
                example_ids@.len() <= scores@.len(),
                self@ == stored::<Id>(before, entries, ids, outputs@, scores@, rows, i as int),
            decreases example_ids@.len() - i,
        {
            let row: Option<ObjectiveScores> = match &objective_scores {
                Some(v) => if i < v.len() {
                    assert(v@[i as int].wf());
                    Some(copy_map(&v[i]))
                } else {
                    None
                },
                None => None,
            };
            assert(ids[i as int] == example_ids@[i as int]@);
            self.put(candidate, &example_ids[i], outputs[i].clone(), scores[i], row);
            i += 1;
        }
    }

    /// The number of entries.
    pub fn len(&self) -> (n: usize)
        requires
            self.wf(),
        ensures
            n == self@.dom().len(),
            self@.dom().finite(),
    {
        assert(self@.dom() =~= self.inner@.dom());
        self.inner.len()
    }

    /// Whether there is no entry.
    pub fn is_empty(&self) -> (b: bool)
        requires
            self.wf(),
        ensures
            b == (self@.dom() =~= Set::empty()),
    {
        assert(self@.dom() =~= self.inner@.dom());
        self.inner.is_empty()
    }
}

/// Whether the entries are those of a cache with the contents `cache`.
pub open spec fn lists_cache(
    entries: Seq<(String, CachedEvaluation)>,
    cache: Map<Seq<char>, CachedView>,
) -> bool {
    &&& pair_keys(entries).no_duplicates()
    &&& forall|k: Seq<char>| #[trigger] pair_keys(entries).contains(k) <==> cache.dom().contains(k)
    &&& forall|i: int|
        0 <= i < entries.len() ==> (#[trigger] entries[i]).1.wf() && entries[i].1@
            == cache[entries[i].0@]
}

/// What a cache with the given entries holds.
pub open spec fn listed(entries: Seq<(String, CachedEvaluation)>) -> Map<Seq<char>, CachedView> {
    mapped(entries, entries.len() as int).map_values(|c: CachedEvaluation| c@)
}

impl EvaluationCache {
    /// The entries, with their keys.
    pub fn to_entries(&self) -> (entries: Vec<(String, CachedEvaluation)>)
        requires
            self.wf(),
        ensures
            lists_cache(entries@, self@),
    {
        let n: usize = self.inner.len();
        let mut entries: Vec<(String, CachedEvaluation)> = Vec::new();
        let mut i: usize = 0;
        while i < n
            invariant
                self.wf(),
                n == self.inner.key_seq().len(),
                i <= n,
                entries@.len() == i,
                forall|j: int|
                    0 <= j < i ==> (#[trigger] entries@[j]).0@ == self.inner.key_seq()[j],
                forall|j: int|
                    0 <= j < i ==> (#[trigger] entries@[j]).1.wf() && entries@[j].1@
                        == self.inner.value_seq()[j]@,
            decreases n - i,
        {
            let c = self.inner.value_at(i);
            proof {
                self.inner.lemma_entry(i as int);
            }
            let copy = CachedEvaluation {
                output: c.output.clone(),
                score: c.score,
                objective_scores: copy_objectives(&c.objective_scores),
            };
            entries.push((self.inner.key_at(i).clone(), copy));
            i += 1;
        }
        proof {
            assert(pair_keys(entries@) =~= self.inner.key_seq());
            assert forall|k: Seq<char>| #[trigger] pair_keys(entries@).contains(
                k,
            ) <==> self@.dom().contains(k) by {}
            assert forall|j: int| 0 <= j < entries@.len() implies (#[trigger] entries@[j]).1.wf()
                && entries@[j].1@ == self@[entries@[j].0@] by {
                self.inner.lemma_entry(j);
            }
        }
        entries
    }

    /// A cache with the given entries; a later entry replaces an earlier one
    /// with the same key.
    pub fn from_entries(entries: Vec<(String, CachedEvaluation)>) -> (cache: Self)
        requires
            forall|i: int| 0 <= i < entries@.len() ==> (#[trigger] entries@[i]).1.wf(),
        ensures
            cache.wf(),
            cache@ == listed(entries@),
            forall|contents: Map<Seq<char>, CachedView>|
                lists_cache(entries@, contents) ==> cache@ == contents,
    {
        let ghost all = entries@;
        let cache = EvaluationCache { inner: from_pairs(entries) };
        proof {
            assert forall|k: Seq<char>| cache.inner@.dom().contains(k) implies (
            #[trigger] cache.inner@[k]).wf() by {
                let p = cache.inner.lemma_position(k);
                assert(pair_values(all).contains(cache.inner.value_seq()[p]));
                let j = choose|j: int|
                    0 <= j < pair_values(all).len() && pair_values(all)[j]
                        == cache.inner.value_seq()[p];
                assert(all[j].1.wf());
            }
            assert forall|contents: Map<Seq<char>, CachedView>|
                lists_cache(all, contents) implies cache@ == contents by {
                assert forall|k: Seq<char>| cache@.dom().contains(k) == contents.dom().contains(
                    k,
                ) by {
                    assert(pair_keys(all).contains(k) <==> contents.dom().contains(k));
                }
                assert forall|k: Seq<char>| #[trigger] cache@.dom().contains(k) implies cache@[k]
                    == contents[k] by {
                    let p = cache.inner.lemma_position(k);
                    assert(pair_keys(all)[p] == k);
                    assert(pair_values(all)[p] == all[p].1);
                    assert(all[p].1@ == contents[all[p].0@]);
                }
                assert(cache@ =~= contents);
            }
        }
        cache
    }
}

} // verus!
