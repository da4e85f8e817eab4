//! A balanced choice of examples to compare two programs and their merge on.
use rand::rngs::StdRng;
use vstd::prelude::*;

use crate::keyed::{views, KeyMap, MapKey};
use crate::optimizer::data_loader::DataId;
use crate::proposer::merge::{count_keys, lemma_chosen};
use crate::random::{choose_some, chosen_some};
use crate::score::Score;
use crate::strategies::batch_sampler::picked;

verus! {

/// Both programs were scored on the example.
pub open spec fn shared<K>(a: Map<K, Score>, b: Map<K, Score>, k: K) -> bool {
    a.dom().contains(k) && b.dom().contains(k)
}

/// The first program is better on the example.
pub open spec fn first_better<K>(a: Map<K, Score>, b: Map<K, Score>, k: K) -> bool {
    shared(a, b, k) && a[k].above(b[k])
}

/// The second program is better on the example.
pub open spec fn second_better<K>(a: Map<K, Score>, b: Map<K, Score>, k: K) -> bool {
    shared(a, b, k) && b[k].above(a[k])
}

/// The programs are equally good on the example.
pub open spec fn tied<K>(a: Map<K, Score>, b: Map<K, Score>, k: K) -> bool {
    shared(a, b, k) && a[k].level(b[k])
}

/// The least of three.
pub open spec fn least(x: int, y: int, z: int) -> int {
    if x <= y && x <= z {
        x
    } else if y <= z {
        y
    } else {
        z
    }
}

/// How many examples each group gives at most, of `n` in all.
pub open spec fn share(n: int) -> int {
    let third = n / 3 + if n % 3 == 0 {
        0int
    } else {
        1
    };
    if third < 1 {
        1
    } else {
        third
    }
}

/// Whether `ids` is a balanced choice of at most `n` examples that both
/// programs were scored on: first such on which the first program is better,
/// then such on which the second is, then ties, up to a third of `n` each, then
/// any others.
pub open spec fn balanced<K>(
    ids: Seq<K>,
    keys: Seq<K>,
    a: Map<K, Score>,
    b: Map<K, Score>,
    n: nat,
) -> bool {
    let len = keys.len() as int;
    let each = share(n as int);
    let t1 = least(count_keys(keys, |k: K| first_better(a, b, k), len) as int, each, n as int);
    let t2 = least(
        count_keys(keys, |k: K| second_better(a, b, k), len) as int,
        each,
        n - t1,
    );
    let t3 = least(count_keys(keys, |k: K| tied(a, b, k), len) as int, each, n - t1 - t2);
    let all = count_keys(keys, |k: K| shared(a, b, k), len);
    &&& ids.no_duplicates()
    &&& ids.len() == if n <= all {
        n
    } else {
        all
    }
    &&& forall|i: int| 0 <= i < ids.len() ==> shared(a, b, #[trigger] ids[i])
    &&& forall|i: int| 0 <= i < t1 ==> i < ids.len() && first_better(a, b, #[trigger] ids[i])
    &&& forall|i: int|
        t1 <= i < t1 + t2 ==> i < ids.len() && second_better(a, b, #[trigger] ids[i])
    &&& forall|i: int|
        t1 + t2 <= i < t1 + t2 + t3 ==> i < ids.len() && tied(a, b, #[trigger] ids[i])
}

/// The positions of those of the first `n` keys that satisfy `f`, in order.
pub open spec fn positions<K>(keys: Seq<K>, f: spec_fn(K) -> bool, n: int) -> Seq<usize>
    decreases n,
{
    if n <= 0 {
        seq![]
    } else if f(keys[n - 1]) {
        positions(keys, f, n - 1).push((n - 1) as usize)
    } else {
        positions(keys, f, n - 1)
    }
}

/// Those of the first `n` elements of `list` that are not in `selected`, in order.
pub open spec fn left_over(list: Seq<usize>, selected: Seq<usize>, n: int) -> Seq<usize>
    decreases n,
{
    if n <= 0 {
        seq![]
    } else if selected.contains(list[n - 1]) {
        left_over(list, selected, n - 1)
    } else {
        left_over(list, selected, n - 1).push(list[n - 1])
    }
}

/// The positions that a generator chooses from the groups, and the generator that
/// is left: up to a third of `n` from each of the three, and the rest from
/// whatever is left over.
pub open spec fn chosen_positions(
    common: Seq<usize>,
    first: Seq<usize>,
    second: Seq<usize>,
    ties: Seq<usize>,
    n: usize,
    rng: StdRng,
) -> (Seq<usize>, StdRng) {
    let each = share(n as int);
    let t1 = least(first.len() as int, each, n as int);
    let t2 = least(second.len() as int, each, n - t1);
    let t3 = least(ties.len() as int, each, n - t1 - t2);
    let (c1, r1) = chosen_some(rng, first, t1 as usize);
    let (c2, r2) = chosen_some(r1, second, t2 as usize);
    let (c3, r3) = chosen_some(r2, ties, t3 as usize);
    let selected = c1 + c2 + c3;
    let rest = left_over(common, selected, common.len() as int);
    let (c4, r4) = chosen_some(r3, rest, (n - selected.len()) as usize);
    (selected + c4, r4)
}

/// The positions of the examples that a generator chooses, and the generator
/// that is left.
pub open spec fn subsample_choice<K>(
    keys: Seq<K>,
    a: Map<K, Score>,
    b: Map<K, Score>,
    n: usize,
    rng: StdRng,
) -> (Seq<usize>, StdRng) {
    let len = keys.len() as int;
    chosen_positions(
        positions(keys, |k: K| shared(a, b, k), len),
        positions(keys, |k: K| first_better(a, b, k), len),
        positions(keys, |k: K| second_better(a, b, k), len),
        positions(keys, |k: K| tied(a, b, k), len),
        n,
        rng,
    )
}

/// Whether `list` has exactly the positions of those of the first `n` keys that
/// satisfy `f`, each once.
pub open spec fn positions_of<K>(
    list: Seq<usize>,
    keys: Seq<K>,
    f: spec_fn(K) -> bool,
    n: int,
) -> bool {
    &&& list == positions(keys, f, n)
    &&& list.no_duplicates()
    &&& list.len() == count_keys(keys, f, n)
    &&& forall|p: usize| #[trigger] list.contains(p) <==> p < n && f(keys[p as int])
}

proof fn lemma_add_position<K>(
    list: Seq<usize>,
    keys: Seq<K>,
    f: spec_fn(K) -> bool,
    n: usize,
)
    requires
        positions_of(list, keys, f, n as int),
        n < keys.len(),
    ensures
        f(keys[n as int]) ==> positions_of(list.push(n), keys, f, n + 1),
        !f(keys[n as int]) ==> positions_of(list, keys, f, n + 1),
{
    if f(keys[n as int]) {
        let more = list.push(n);
        assert forall|p: usize| #[trigger] more.contains(p) <==> p < n + 1 && f(keys[p as int]) by {
            if more.contains(p) {
                let i = choose|i: int| 0 <= i < more.len() && more[i] == p;
                if i < list.len() {
                    assert(list.contains(list[i]));
                }
            }
            if p < n + 1 && f(keys[p as int]) {
                if p < n {
                    assert(list.contains(p));
                    let i = choose|i: int| 0 <= i < list.len() && list[i] == p;
                    assert(more[i] == p);
                } else {
                    assert(more[list.len() as int] == p);
                }
            }
        }
        assert forall|i: int, j: int| 0 <= i < more.len() && 0 <= j < more.len() && i
            != j implies more[i] != more[j] by {
            if i < list.len() {
                assert(list.contains(list[i]));
            }
            if j < list.len() {
                assert(list.contains(list[j]));
            }
        }
    }
}

/// Add at most `amount` elements of `list`, chosen by chance, to `selected`.
fn add_some(selected: &mut Vec<usize>, list: &Vec<usize>, amount: usize, rng: &mut StdRng)
    requires
        list@.no_duplicates(),
        old(selected)@.no_duplicates(),
        forall|p: usize| #[trigger] list@.contains(p) ==> !old(selected)@.contains(p),
    ensures
        (final(selected)@, *final(rng)) == (
            old(selected)@ + chosen_some(*old(rng), list@, amount).0,
            chosen_some(*old(rng), list@, amount).1,
        ),
        final(selected)@.no_duplicates(),
        final(selected)@.len() == old(selected)@.len() + if amount <= list@.len() {
            amount as nat
        } else {
            list@.len()
        },
        final(selected)@.take(old(selected)@.len() as int) == old(selected)@,
        forall|i: int|
            old(selected)@.len() <= i < final(selected)@.len() ==> list@.contains(
                #[trigger] final(selected)@[i],
            ),
        forall|p: usize| #[trigger]
            final(selected)@.contains(p) ==> old(selected)@.contains(p) || list@.contains(p),
{
    let ghost before = selected@;
    let mut chosen = choose_some(list, amount, rng);
    let ghost c = chosen@;
    proof {
        lemma_chosen(list@, c);
    }
    selected.append(&mut chosen);
    proof {
        assert(selected@ =~= before + c);
        assert forall|i: int, j: int| 0 <= i < selected@.len() && 0 <= j < selected@.len() && i
            != j implies selected@[i] != selected@[j] by {
            if i < before.len() && j >= before.len() {
                assert(c.contains(c[j - before.len()]));
                assert(before.contains(before[i]));
            } else if j < before.len() && i >= before.len() {
                assert(c.contains(c[i - before.len()]));
                assert(before.contains(before[j]));
            }
        }
        assert forall|i: int| before.len() <= i < selected@.len() implies list@.contains(
            #[trigger] selected@[i],
        ) by {
            assert(c.contains(c[i - before.len()]));
        }
        assert forall|p: usize| #[trigger] selected@.contains(p) implies before.contains(p)
            || list@.contains(p) by {
            let i = choose|i: int| 0 <= i < selected@.len() && selected@[i] == p;
            if i < before.len() {
                assert(before[i] == p);
            }
        }
        assert(selected@.take(before.len() as int) =~= before);
    }
}

fn min3(x: usize, y: usize, z: usize) -> (m: usize)
    ensures
        m == least(x as int, y as int, z as int),
{
    if x <= y && x <= z {
        x
    } else if y <= z {
        y
    } else {
        z
    }
}

fn holds(list: &Vec<usize>, p: usize) -> (b: bool)
    ensures
        b == list@.contains(p),
{
    let mut i: usize = 0;
    while i < list.len()
        invariant
            i <= list@.len(),
            forall|j: int| 0 <= j < i ==> list@[j] != p,
        decreases list@.len() - i,
    {
        if list[i] == p {
            return true;
        }
        i += 1;
    }
    false
}

/// The elements of `list` that are not in `selected`.
fn others(list: &Vec<usize>, selected: &Vec<usize>) -> (rest: Vec<usize>)
    requires
        list@.no_duplicates(),
        selected@.no_duplicates(),
        forall|p: usize| #[trigger] selected@.contains(p) ==> list@.contains(p),
    ensures
        rest@ == left_over(list@, selected@, list@.len() as int),
        rest@.no_duplicates(),
        forall|p: usize| #[trigger]
            rest@.contains(p) <==> list@.contains(p) && !selected@.contains(p),
        rest@.len() + selected@.len() == list@.len(),
{
    let mut rest: Vec<usize> = Vec::new();
    let mut i: usize = 0;
    while i < list.len()
        invariant
            list@.no_duplicates(),
            i <= list@.len(),
            rest@ == left_over(list@, selected@, i as int),
            rest@.no_duplicates(),
            forall|p: usize| #[trigger]
                rest@.contains(p) <==> (exists|j: int| 0 <= j < i && list@[j] == p)
                    && !selected@.contains(p),
        decreases list@.len() - i,
    {
        let p: usize = list[i];
        let ghost before = rest@;
        if !holds(selected, p) {
            proof {
                if before.contains(p) {
                    let j = choose|j: int| 0 <= j < i && list@[j] == p;
                    assert(list@[j] == list@[i as int]);
                }
            }
            rest.push(p);
        }
        proof {
            assert forall|q: usize| #[trigger] rest@.contains(q) <==> (exists|j: int|
                0 <= j < i + 1 && list@[j] == q) && !selected@.contains(q) by {
                if rest@.contains(q) {
                    let k = choose|k: int| 0 <= k < rest@.len() && rest@[k] == q;
                    if k < before.len() {
                        assert(before.contains(q));
                        let j = choose|j: int| 0 <= j < i && list@[j] == q;
                        assert(0 <= j < i + 1 && list@[j] == q);
                    } else {
                        assert(list@[i as int] == q);
                    }
                }
                if (exists|j: int| 0 <= j < i + 1 && list@[j] == q) && !selected@.contains(q) {
                    let j = choose|j: int| 0 <= j < i + 1 && list@[j] == q;
                    if j < i {
                        assert(before.contains(q));
                        let k = choose|k: int| 0 <= k < before.len() && before[k] == q;
                        assert(rest@[k] == q);
                    } else {
                        assert(rest@[before.len() as int] == q);
                    }
                }
            }
        }
        i += 1;
    }
    proof {
        list@.unique_seq_to_set();
        selected@.unique_seq_to_set();
        rest@.unique_seq_to_set();
        let a = rest@.to_set();
        let b = selected@.to_set();
        assert forall|p: usize| (a + b).contains(p) == list@.to_set().contains(p) by {
            assert(rest@.contains(p) <==> list@.contains(p) && !selected@.contains(p));
            assert(selected@.contains(p) ==> list@.contains(p));
        }
        assert(a + b =~= list@.to_set());
        assert(a.disjoint(b)) by {
            assert forall|p: usize| !(a.contains(p) && b.contains(p)) by {
                assert(rest@.contains(p) <==> list@.contains(p) && !selected@.contains(p));
            }
        }
        vstd::set_lib::lemma_set_disjoint_lens(a, b);
    }
    rest
}

/// The positions of the examples that both programs were scored on, and of
/// those that the first does better on, that the second does better on, and
/// that they tie on.
struct Buckets {
    common: Vec<usize>,
    first: Vec<usize>,
    second: Vec<usize>,
    ties: Vec<usize>,
}

impl Buckets {
    spec fn sort_out<K>(&self, keys: Seq<K>, a: Map<K, Score>, b: Map<K, Score>, n: int) -> bool {
        &&& positions_of(self.common@, keys, |k: K| shared(a, b, k), n)
        &&& positions_of(self.first@, keys, |k: K| first_better(a, b, k), n)
        &&& positions_of(self.second@, keys, |k: K| second_better(a, b, k), n)
        &&& positions_of(self.ties@, keys, |k: K| tied(a, b, k), n)
    }

    /// The groups are parts of the whole and have nothing in common.
    spec fn disjoint(&self) -> bool {
        &&& self.common@.no_duplicates()
        &&& self.first@.no_duplicates()
        &&& self.second@.no_duplicates()
        &&& self.ties@.no_duplicates()
        &&& forall|p: usize| #[trigger]
            self.first@.contains(p) ==> self.common@.contains(p) && !self.second@.contains(p)
                && !self.ties@.contains(p)
        &&& forall|p: usize| #[trigger]
            self.second@.contains(p) ==> self.common@.contains(p) && !self.first@.contains(p)
                && !self.ties@.contains(p)
        &&& forall|p: usize| #[trigger]
            self.ties@.contains(p) ==> self.common@.contains(p) && !self.first@.contains(p)
                && !self.second@.contains(p)
    }
}

fn sort_out<Id: DataId>(scores1: &KeyMap<Id, Score>, scores2: &KeyMap<Id, Score>) -> (r: Buckets)
    requires
        scores1.wf(),
        scores2.wf(),
    ensures
        r.sort_out(
            scores1.key_seq(),
            scores1@,
            scores2@,
            scores1.key_seq().len() as int,
        ),
        r.disjoint(),
{
    let ghost keys = scores1.key_seq();
    let ghost a = scores1@;
    let ghost b = scores2@;
    let n: usize = scores1.len();
    let mut r = Buckets {
        common: Vec::new(),
        first: Vec::new(),
        second: Vec::new(),
        ties: Vec::new(),
    };
    let mut i: usize = 0;
    while i < n
        invariant
            scores1.wf(),
            scores2.wf(),
            keys == scores1.key_seq(),
            a == scores1@,
            b == scores2@,
            n == keys.len(),
            i <= n,
            r.sort_out(keys, a, b, i as int),
        decreases n - i,
    {
        proof {
            scores1.lemma_entry(i as int);
            lemma_add_position(r.common@, keys, |k: Id::V| shared(a, b, k), i);
            lemma_add_position(r.first@, keys, |k: Id::V| first_better(a, b, k), i);
            lemma_add_position(r.second@, keys, |k: Id::V| second_better(a, b, k), i);
            lemma_add_position(r.ties@, keys, |k: Id::V| tied(a, b, k), i);
        }
        let s1 = scores1.value_at(i);
        if let Some(s2) = scores2.get(scores1.key_at(i)) {
            r.common.push(i);
            if s1.exceeds(s2) {
                r.first.push(i);
            }
            if s2.exceeds(s1) {
                r.second.push(i);
            }
            if s1.equals(s2) {
                r.ties.push(i);
            }
        }
        i += 1;
    }
    r
}

/// How many each group gives.
spec fn quotas(b: Buckets, n: int) -> (int, int, int) {
    let each = share(n);
    let t1 = least(b.first@.len() as int, each, n);
    let t2 = least(b.second@.len() as int, each, n - t1);
    let t3 = least(b.ties@.len() as int, each, n - t1 - t2);
    (t1, t2, t3)
}

fn choose_positions(b: &Buckets, num_subsample: usize, rng: &mut StdRng) -> (selected: Vec<usize>)
    requires
        b.disjoint(),
    ensures
        (selected@, *final(rng)) == chosen_positions(
            b.common@,
            b.first@,
            b.second@,
            b.ties@,
            num_subsample,
            *old(rng),
        ),
        selected@.no_duplicates(),
        selected@.len() == if num_subsample <= b.common@.len() {
            num_subsample as nat
        } else {
            b.common@.len()
        },
        forall|k: int| 0 <= k < selected@.len() ==> b.common@.contains(#[trigger] selected@[k]),
        ({
            let (t1, t2, t3) = quotas(*b, num_subsample as int);
            &&& t1 + t2 + t3 <= selected@.len()
            &&& t1 >= 0 && t2 >= 0 && t3 >= 0
            &&& forall|k: int| 0 <= k < t1 ==> b.first@.contains(#[trigger] selected@[k])
            &&& forall|k: int| t1 <= k < t1 + t2 ==> b.second@.contains(#[trigger] selected@[k])
            &&& forall|k: int|
                t1 + t2 <= k < t1 + t2 + t3 ==> b.ties@.contains(#[trigger] selected@[k])
        }),
{
    let third: usize = num_subsample / 3 + if num_subsample % 3 == 0 {
        0
    } else {
        1
    };
    let each: usize = if third < 1 {
        1
    } else {
        third
    };
    assert(each == share(num_subsample as int));
    let mut selected: Vec<usize> = Vec::new();
    let t1: usize = min3(b.first.len(), each, num_subsample);
    let ghost (c1, r1) = chosen_some(*rng, b.first@, t1);
    add_some(&mut selected, &b.first, t1, rng);
    assert(selected@ =~= c1);
    let ghost sel1 = selected@;
    let t2: usize = min3(b.second.len(), each, num_subsample - t1);
    let ghost (c2, r2) = chosen_some(r1, b.second@, t2);
    add_some(&mut selected, &b.second, t2, rng);
    let ghost sel2 = selected@;
    let t3: usize = min3(b.ties.len(), each, num_subsample - t1 - t2);
    let ghost (c3, r3) = chosen_some(r2, b.ties@, t3);
    add_some(&mut selected, &b.ties, t3, rng);
    let ghost sel3 = selected@;
    assert(sel3 == c1 + c2 + c3);
    proof {
        assert forall|p: usize| #[trigger] sel3.contains(p) implies b.common@.contains(p) by {
            if sel2.contains(p) {
                if sel1.contains(p) {
                    assert(b.first@.contains(p));
                } else {
                    assert(b.second@.contains(p));
                }
            } else {
                assert(b.ties@.contains(p));
            }
        }
    }
    let rest = others(&b.common, &selected);
    let remaining: usize = num_subsample - selected.len();
    let ghost (c4, r4) = chosen_some(r3, rest@, remaining);
    add_some(&mut selected, &rest, remaining, rng);
    assert(selected@ == sel3 + c4);
    assert((selected@, *rng) == chosen_positions(
        b.common@,
        b.first@,
        b.second@,
        b.ties@,
        num_subsample,
        *old(rng),
    ));
    proof {
        assert forall|k: int| 0 <= k < selected@.len() implies b.common@.contains(
            #[trigger] selected@[k],
        ) by {
            assert(selected@.contains(selected@[k]));
        }
        assert forall|k: int| 0 <= k < t1 implies b.first@.contains(#[trigger] selected@[k]) by {
            assert(selected@.take(sel3.len() as int)[k] == sel3[k]);
            assert(sel3.take(sel2.len() as int)[k] == sel2[k]);
            assert(sel2.take(sel1.len() as int)[k] == sel1[k]);
        }
        assert forall|k: int| t1 <= k < t1 + t2 implies b.second@.contains(
            #[trigger] selected@[k],
        ) by {
            assert(selected@.take(sel3.len() as int)[k] == sel3[k]);
            assert(sel3.take(sel2.len() as int)[k] == sel2[k]);
        }
        assert forall|k: int| t1 + t2 <= k < t1 + t2 + t3 implies b.ties@.contains(
            #[trigger] selected@[k],
        ) by {
            assert(selected@.take(sel3.len() as int)[k] == sel3[k]);
        }
    }
    selected
}

/// Choose at most `num_subsample` of the examples that both programs were
/// scored on, balanced between those that the first does better on, those that
/// the second does better on, and ties.
pub fn balanced_subsample<Id: DataId>(
    rng: &mut StdRng,
    scores1: &KeyMap<Id, Score>,
    scores2: &KeyMap<Id, Score>,
    num_subsample: usize,
) -> (ids: Vec<Id>)
    requires
        scores1.wf(),
        scores2.wf(),
    ensures
        balanced(views(ids@), scores1.key_seq(), scores1@, scores2@, num_subsample as nat),
        (views(ids@), *final(rng)) == ({
            let (chosen, rest) = subsample_choice(
                scores1.key_seq(),
                scores1@,
                scores2@,
                num_subsample,
                *old(rng),
            );
            (picked(scores1.key_seq(), chosen), rest)
        }),
{
    let ghost keys = scores1.key_seq();
    let ghost a = scores1@;
    let ghost b = scores2@;
    let buckets = sort_out(scores1, scores2);
    let selected = choose_positions(&buckets, num_subsample, rng);
    proof {
        assert forall|k: int| 0 <= k < selected@.len() implies (#[trigger] selected@[k])
            < keys.len() && shared(a, b, keys[selected@[k] as int]) by {
            assert(buckets.common@.contains(selected@[k]));
        }
    }
    let mut ids: Vec<Id> = Vec::new();
    let mut k: usize = 0;
    while k < selected.len()
        invariant
            scores1.wf(),
            keys == scores1.key_seq(),
            k <= selected@.len(),
            forall|q: int| 0 <= q < selected@.len() ==> (#[trigger] selected@[q]) < keys.len(),
            ids@.len() == k,
            forall|q: int| 0 <= q < k ==> (#[trigger] ids@[q])@ == keys[selected@[q] as int],
        decreases selected@.len() - k,
    {
        ids.push(scores1.key_at(selected[k]).duplicate());
        k += 1;
    }
    proof {
        let v = views(ids@);
        assert forall|x: int| 0 <= x < v.len() implies #[trigger] v[x]
            == keys[selected@[x] as int] by {
            assert(ids@[x]@ == keys[selected@[x] as int]);
        }
        assert forall|x: int, y: int| 0 <= x < v.len() && 0 <= y < v.len() && x != y implies v[x]
            != v[y] by {
            assert(selected@[x] != selected@[y]);
        }
        assert(v =~= picked(keys, selected@));
        let (t1, t2, t3) = quotas(buckets, num_subsample as int);
        assert forall|i: int| 0 <= i < t1 implies i < v.len() && first_better(
            a,
            b,
            #[trigger] v[i],
        ) by {
            assert(buckets.first@.contains(selected@[i]));
        }
        assert forall|i: int| t1 <= i < t1 + t2 implies i < v.len() && second_better(
            a,
            b,
            #[trigger] v[i],
        ) by {
            assert(buckets.second@.contains(selected@[i]));
        }
        assert forall|i: int| t1 + t2 <= i < t1 + t2 + t3 implies i < v.len() && tied(
            a,
            b,
            #[trigger] v[i],
        ) by {
            assert(buckets.ties@.contains(selected@[i]));
        }
    }
    ids
}

} // verus!
