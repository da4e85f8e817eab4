//! Which candidate is to be mutated next.
use std::collections::HashSet;

use rand::rngs::StdRng;
use vstd::prelude::*;

use crate::error::{GEPAError, Result};
use crate::keyed::{KeyMap, MapKey};
use crate::optimizer::data_loader::DataId;
use crate::optimizer::frontier::{FrontierKey, FrontierKeyView};
use crate::optimizer::fronts::sets_view;
use crate::optimizer::state::GEPAState;
use crate::random::{
    draw_below, draw_word, drawn_below, drawn_word, seeded, seeded_generator,
};
use crate::score::{best_place, best_place_in_range, Score, ScoreArithmetic};
use crate::utils::pareto::{
    idxmax, may_select, no_program, select_program_candidate_from_pareto_front, selected, survives,
    survivor_is_on_the_frontier,
};
use crate::utils::programs::{intersection, set_of};

verus! {

broadcast use vstd::std_specs::hash::group_hash_axioms;

/// Chooses the candidate that is mutated next.
pub trait CandidateSelector<Id: DataId>: Send + Sync {
    /// Whether `r` is what the selector may give for `state`: anything, unless an
    /// impl says more.
    open spec fn may_give(&self, state: GEPAState<Id>, r: Result<usize>) -> bool {
        true
    }

    /// Whether `after` may be left of the selector once it has given `r` for
    /// `state`: anything, unless an impl says more.
    open spec fn may_leave(&self, after: &Self, state: GEPAState<Id>, r: Result<usize>) -> bool {
        true
    }

    /// The index of a candidate.
    ///
    /// # Errors
    /// An error where no candidate can be found.
    fn select_candidate_idx(&mut self, state: &GEPAState<Id>) -> (r: Result<usize>)
        requires
            state.maps_wf(),
            state.aligned(),
            state.fronts_in_range(),
        ensures
            r matches Ok(i) ==> i < state.program_candidates@.len(),
            old(self).may_give(*state, r),
            old(self).may_leave(&*final(self), *state, r),
    ;
}

/// Draws from the Pareto front: a candidate that is on more fronts is more
/// likely.
pub struct ParetoCandidateSelector {
    rng: StdRng,
}

impl ParetoCandidateSelector {
    /// The source of chance.
    pub closed spec fn generator(&self) -> StdRng {
        self.rng
    }

    /// A selector with a seed.
    pub fn new(seed: u64) -> (s: Self)
        ensures
            s.generator() == seeded_generator(seed),
    {
        ParetoCandidateSelector { rng: seeded(seed) }
    }
}

impl<Id: DataId> CandidateSelector<Id> for ParetoCandidateSelector {
    /// A program that is left of the fronts, as the generator draws it; an error
    /// just where there is none.
    open spec fn may_give(&self, state: GEPAState<Id>, r: Result<usize>) -> bool {
        &&& may_select(state.frontier(), state.mean_scores(), self.generator(), r)
        &&& match r {
            Ok(i) => !no_program(state.frontier()) && survives(
                i,
                state.frontier(),
                state.mean_scores(),
            ),
            Err(e) => no_program(state.frontier()) && e is EmptyFrontier,
        }
    }

    /// The generator that the draw leaves.
    open spec fn may_leave(&self, after: &Self, state: GEPAState<Id>, r: Result<usize>) -> bool {
        selected(
            state.frontier(),
            state.mean_scores(),
            self.generator(),
            after.generator(),
            r,
        )
    }

    fn select_candidate_idx(&mut self, state: &GEPAState<Id>) -> (r: Result<usize>) {
        let mapping = state.get_pareto_front_mapping();
        let scores = state.program_full_scores_val_set();
        let r = select_program_candidate_from_pareto_front(&mapping, &scores, &mut self.rng);
        proof {
            if r is Ok {
                lemma_survivor_in_range(*state, r->Ok_0);
            }
        }
        r
    }
}

/// A program that is left of the state's fronts is a candidate.
proof fn lemma_survivor_in_range<Id: DataId>(state: GEPAState<Id>, p: usize)
    requires
        state.fronts_in_range(),
        survives(p, state.frontier(), state.mean_scores()),
    ensures
        p < state.program_candidates@.len(),
{
    survivor_is_on_the_frontier(p, state.frontier(), state.mean_scores());
}

/// The candidate with the best mean score.
pub struct CurrentBestSelector;

impl<Id: DataId> CandidateSelector<Id> for CurrentBestSelector {
    /// The first of the candidates with the best mean score.
    open spec fn may_give(&self, state: GEPAState<Id>, r: Result<usize>) -> bool {
        match r {
            Ok(i) => state.program_candidates@.len() > 0 && i == best_place(
                state.mean_scores(),
                state.mean_scores().len() as int,
            ),
            Err(e) => e is NoCandidates && state.program_candidates@.len() == 0,
        }
    }

    /// The same selector.
    open spec fn may_leave(&self, after: &Self, state: GEPAState<Id>, r: Result<usize>) -> bool {
        *after == *self
    }

    fn select_candidate_idx(&mut self, state: &GEPAState<Id>) -> (r: Result<usize>) {
        let scores = state.program_full_scores_val_set();
        proof {
            if scores@.len() > 0 {
                best_place_in_range(scores@, scores@.len() as int);
            }
        }
        idxmax(&scores)
    }
}

/// With probability `epsilon` any candidate, else the one with the best mean
/// score.
pub struct EpsilonGreedySelector<A: ScoreArithmetic> {
    epsilon: Score,
    rng: StdRng,
    arith: A,
}

/// One.
pub open spec fn one_score() -> Score {
    Score { bits: 0x3ff0_0000_0000_0000 }
}

/// Whether `epsilon` lies between 0 and 1.
pub open spec fn is_probability(epsilon: Score) -> bool {
    epsilon.at_least(Score { bits: 0 }) && one_score().at_least(epsilon)
}

impl<A: ScoreArithmetic> EpsilonGreedySelector<A> {
    /// The probability with which any candidate is chosen.
    pub closed spec fn probability(&self) -> Score {
        self.epsilon
    }

    /// The source of chance.
    pub closed spec fn generator(&self) -> StdRng {
        self.rng
    }

    /// The floating point operations.
    pub closed spec fn arithmetic(&self) -> A {
        self.arith
    }

    /// What the draw `draw` decides: the candidate `drawn` where it lies below the
    /// probability, else the one with the best mean score.
    pub open spec fn decided<Id: DataId>(
        &self,
        state: GEPAState<Id>,
        draw: Score,
        drawn: usize,
    ) -> usize {
        if self.probability().above(draw) {
            drawn
        } else {
            best_place(state.mean_scores(), state.mean_scores().len() as int) as usize
        }
    }

    /// Whether `r` is what the selector chooses where the point that it draws is
    /// `draw`, and `after` the selector that is left: a candidate is drawn only
    /// where the point lies below the probability.
    pub open spec fn chose<Id: DataId>(
        &self,
        after: Self,
        state: GEPAState<Id>,
        draw: Score,
        r: Result<usize>,
    ) -> bool {
        let n = state.program_candidates@.len() as usize;
        let (word, rest) = drawn_word(self.generator());
        let (drawn, last) = drawn_below(rest, n, usize::BITS);
        &&& call_ensures(A::point, (&self.arithmetic(), word, one_score()), draw)
        &&& r == Ok::<usize, GEPAError>(self.decided(state, draw, drawn))
        &&& after.probability() == self.probability()
        &&& after.arithmetic() == self.arithmetic()
        &&& after.generator() == if self.probability().above(draw) {
            last
        } else {
            rest
        }
    }

    /// Whether `after` may be left once the selector has chosen `r`.
    pub open spec fn leaves<Id: DataId>(
        &self,
        after: Self,
        state: GEPAState<Id>,
        r: Result<usize>,
    ) -> bool {
        if state.program_candidates@.len() == 0 {
            after == *self
        } else {
            exists|draw: Score| #[trigger] self.chose(after, state, draw, r)
        }
    }

    /// A selector with a probability and a seed.
    ///
    /// # Errors
    /// A configuration error where `epsilon` does not lie between 0 and 1.
    pub fn new(epsilon: Score, seed: u64, arith: A) -> (r: Result<Self>)
        ensures
            match r {
                Ok(s) => {
                    &&& is_probability(epsilon)
                    &&& s.probability() == epsilon
                    &&& s.arithmetic() == arith
                    &&& s.generator() == seeded_generator(seed)
                },
                Err(e) => {
                    &&& !is_probability(epsilon)
                    &&& e matches GEPAError::Config(text)
                    &&& exists|number: String| #[trigger]
                        call_ensures(A::text, (&arith, epsilon), number) && text@
                            == "epsilon must be in [0.0, 1.0], got "@ + number@
                },
            },
    {
        if !(epsilon.reaches(&Score::zero()) && Score::one().reaches(&epsilon)) {
            let mut text = "epsilon must be in [0.0, 1.0], got ".to_owned();
            let number = arith.text(epsilon);
            text.append(number.as_str());
            return Err(GEPAError::Config(text));
        }
        Ok(EpsilonGreedySelector { epsilon, rng: seeded(seed), arith })
    }

    /// The choice that the draw `draw` decides: the candidate `drawn` where it
    /// lies below the probability, else the one with the best mean score.
    ///
    /// # Errors
    /// [`GEPAError::NoCandidates`] where there is no candidate.
    pub fn decide<Id: DataId>(&self, state: &GEPAState<Id>, draw: Score, drawn: usize) -> (r: Result<
        usize,
    >)
        requires
            state.maps_wf(),
            state.aligned(),
        ensures
            match r {
                Ok(i) => state.program_candidates@.len() > 0 && i == self.decided(
                    *state,
                    draw,
                    drawn,
                ),
                Err(e) => e is NoCandidates && state.program_candidates@.len() == 0,
            },
    {
        if state.program_candidates.len() == 0 {
            return Err(GEPAError::NoCandidates);
        }
        if self.epsilon.exceeds(&draw) {
            Ok(drawn)
        } else {
            let scores = state.program_full_scores_val_set();
            proof {
                best_place_in_range(scores@, scores@.len() as int);
            }
            idxmax(&scores)
        }
    }
}

impl<Id: DataId, A: ScoreArithmetic + Send + Sync> CandidateSelector<Id> for EpsilonGreedySelector<
    A,
> {
    /// What the generator's word decides as a point between 0 and 1, and, where
    /// it lies below the probability, what the generator draws after it.
    open spec fn may_give(&self, state: GEPAState<Id>, r: Result<usize>) -> bool {
        let n = state.program_candidates@.len();
        if n == 0 {
            r matches Err(e) && e is NoCandidates
        } else {
            let (word, rest) = drawn_word(self.generator());
            exists|draw: Score| #[trigger]
                call_ensures(A::point, (&self.arithmetic(), word, one_score()), draw) && (
                r matches Ok(i) && i == self.decided(
                    state,
                    draw,
                    drawn_below(rest, n as usize, usize::BITS).0,
                ))
        }
    }

    /// The generator that the draws leave, and else the same selector.
    open spec fn may_leave(&self, after: &Self, state: GEPAState<Id>, r: Result<usize>) -> bool {
        self.leaves(*after, state, r)
    }

    fn select_candidate_idx(&mut self, state: &GEPAState<Id>) -> (r: Result<usize>) {
        let n: usize = state.program_candidates.len();
        if n == 0 {
            return Err(GEPAError::NoCandidates);
        }
        let word: u64 = draw_word(&mut self.rng);
        let draw = self.arith.point(word, Score::one());
        let drawn: usize = if self.epsilon.exceeds(&draw) {
            draw_below(&mut self.rng, n)
        } else {
            0
        };
        let r = self.decide(state, draw, drawn);
        proof {
            assert(call_ensures(A::point, (&old(self).arithmetic(), word, one_score()), draw));
            best_place_in_range(state.mean_scores(), state.mean_scores().len() as int);
            assert(old(self).chose(*self, *state, draw, r));
        }
        r
    }
}

/// Draws from the Pareto front, restricted to the `k` candidates with the best
/// mean scores.
pub struct TopKParetoCandidateSelector {
    k: usize,
    rng: StdRng,
}

/// Whether `order` lists the first `n` indices, the best score first; of equal
/// scores, the smaller index. Scores that are no numbers leave the order open.
pub open spec fn strongest_order(order: Seq<usize>, scores: Seq<Score>) -> bool {
    &&& order.no_duplicates()
    &&& forall|p: usize| #[trigger] order.contains(p) <==> p < scores.len()
    &&& (forall|i: int| 0 <= i < scores.len() ==> !(#[trigger] scores[i]).nan()) ==> forall|
        i: int,
        j: int,
    |
        0 <= i < j < order.len() ==> {
            let a = #[trigger] order[i];
            let b = #[trigger] order[j];
            scores[a as int].above(scores[b as int]) || (scores[a as int].level(scores[b as int])
                && a < b)
        }
}

fn strongest_first(scores: &Vec<Score>) -> (order: Vec<usize>)
    ensures
        strongest_order(order@, scores@),
        order@.len() == scores@.len(),
{
    let ghost sc = scores@;
    let ghost numbers = forall|i: int| 0 <= i < sc.len() ==> !(#[trigger] sc[i]).nan();
    let mut order: Vec<usize> = Vec::new();
    let mut n: usize = 0;
    while n < scores.len()
        invariant
            sc == scores@,
            numbers == (forall|i: int| 0 <= i < sc.len() ==> !(#[trigger] sc[i]).nan()),
            n <= sc.len(),
            order@.len() == n,
            order@.no_duplicates(),
            forall|p: usize| #[trigger] order@.contains(p) <==> p < n,
            numbers ==> forall|i: int, j: int|
                0 <= i < j < order@.len() ==> {
                    let a = #[trigger] order@[i];
                    let b = #[trigger] order@[j];
                    sc[a as int].above(sc[b as int]) || (sc[a as int].level(sc[b as int]) && a < b)
                },
        decreases sc.len() - n,
    {
        let mut i: usize = 0;
        assert forall|q: int| 0 <= q < order@.len() implies (#[trigger] order@[q]) < n by {
            assert(order@.contains(order@[q]));
        }
        while i < order.len() && !scores[n].exceeds(&scores[order[i]])
            invariant
                sc == scores@,
                n < sc.len(),
                i <= order@.len(),
                forall|q: int| 0 <= q < order@.len() ==> (#[trigger] order@[q]) < n,
                forall|q: int|
                    0 <= q < i ==> !sc[n as int].above(sc[#[trigger] order@[q] as int]),
            decreases order@.len() - i,
        {
            i += 1;
        }
        let ghost before = order@;
        order.insert(i, n);
        proof {
            assert(order@ == before.insert(i as int, n));
            assert forall|a: int, b: int| 0 <= a < order@.len() && 0 <= b < order@.len() && a
                != b implies order@[a] != order@[b] by {
                let a0 = if a < i { a } else { a - 1 };
                let b0 = if b < i { b } else { b - 1 };
                if a != i {
                    assert(before[a0] < n);
                }
                if b != i {
                    assert(before[b0] < n);
                }
                if a != i && b != i {
                    assert(before[a0] != before[b0]);
                }
            }
            assert forall|p: usize| #[trigger] order@.contains(p) <==> p < n + 1 by {
                if order@.contains(p) {
                    let a = choose|a: int| 0 <= a < order@.len() && order@[a] == p;
                    let a0 = if a < i { a } else { a - 1 };
                    if a != i {
                        assert(before.contains(before[a0]));
                    }
                }
                if p < n + 1 {
                    if p == n {
                        assert(order@[i as int] == p);
                    } else {
                        assert(before.contains(p));
                        let a = choose|a: int| 0 <= a < before.len() && before[a] == p;
                        if a < i {
                            assert(order@[a] == p);
                        } else {
                            assert(order@[a + 1] == p);
                        }
                    }
                }
            }
            if numbers {
                assert forall|x: int, y: int| 0 <= x < y < order@.len() implies {
                    let a = #[trigger] order@[x];
                    let b = #[trigger] order@[y];
                    sc[a as int].above(sc[b as int]) || (sc[a as int].level(sc[b as int]) && a < b)
                } by {
                    if y == i {
                        assert(order@[x] == before[x]);
                        assert(before[x] < n);
                        assert(!sc[before[x] as int].nan());
                        assert(!sc[n as int].nan());
                    } else if x == i {
                        let q = before[i as int];
                        assert(order@[y] == before[y - 1]);
                        assert(before[y - 1] < n);
                        assert(!sc[before[y - 1] as int].nan());
                        if y - 1 > i {
                            assert(sc[q as int].at_least(sc[before[y - 1] as int]));
                        }
                    } else {
                        let x0 = if x < i { x } else { x - 1 };
                        let y0 = if y < i { y } else { y - 1 };
                        assert(order@[x] == before[x0]);
                        assert(order@[y] == before[y0]);
                    }
                }
            }
        }
        n += 1;
    }
    order
}

/// The fronts restricted to the programs in `keep`, without those that no such
/// program is on.
pub open spec fn narrowed<K>(frontier: Map<K, Set<usize>>, keep: Set<usize>) -> Map<
    K,
    Set<usize>,
> {
    Map::new(
        |k: K|
            frontier.dom().contains(k) && exists|p: usize| #[trigger]
                frontier[k].contains(p) && keep.contains(p),
        |k: K| frontier[k].intersect(keep),
    )
}

fn narrow<Id: DataId>(
    mapping: &KeyMap<FrontierKey<Id>, HashSet<usize>>,
    keep: &HashSet<usize>,
) -> (filtered: KeyMap<FrontierKey<Id>, HashSet<usize>>)
    requires
        mapping.wf(),
    ensures
        filtered.wf(),
        sets_view(filtered) == narrowed(sets_view(*mapping), keep@),
{
    let ghost all = sets_view(*mapping);
    let mut filtered: KeyMap<FrontierKey<Id>, HashSet<usize>> = KeyMap::new();
    let n: usize = mapping.len();
    let mut i: usize = 0;
    while i < n
        invariant
            mapping.wf(),
            all == sets_view(*mapping),
            n == mapping.key_seq().len(),
            i <= n,
            filtered.wf(),
            forall|k: FrontierKeyView<Id::V>| #[trigger]
                sets_view(filtered).dom().contains(k) <==> mapping.key_seq().take(
                    i as int,
                ).contains(k) && narrowed(all, keep@).dom().contains(k),
            forall|k: FrontierKeyView<Id::V>| #[trigger]
                sets_view(filtered).dom().contains(k) ==> sets_view(filtered)[k] == narrowed(
                    all,
                    keep@,
                )[k],
        decreases n - i,
    {
        let ghost key = mapping.key_seq()[i as int];
        let ghost before = sets_view(filtered);
        let both = intersection(mapping.value_at(i), keep);
        let ghost bv = both@;
        proof {
            mapping.lemma_entry(i as int);
            let t0 = mapping.key_seq().take(i as int);
            let t1 = mapping.key_seq().take(i + 1);
            assert(t1 =~= t0.push(key));
            assert forall|x: FrontierKeyView<Id::V>| t1.contains(x) <==> t0.contains(x) || x
                == key by {
                if t0.contains(x) {
                    let q = choose|q: int| 0 <= q < t0.len() && t0[q] == x;
                    assert(t1[q] == x);
                }
                if x == key {
                    assert(t1[i as int] == x);
                }
            }
            assert(all[key] == mapping.value_seq()[i as int]@);
            if exists|p: usize| #[trigger] all[key].contains(p) && keep@.contains(p) {
                let p = choose|p: usize| #[trigger] all[key].contains(p) && keep@.contains(p);
                assert(bv.contains(p));
            }
            if exists|p: usize| bv.contains(p) {
                let p = choose|p: usize| bv.contains(p);
                assert(all[key].contains(p) && keep@.contains(p));
            }
        }
        if !both.is_empty() {
            proof {
                assert(!(bv =~= Set::empty()));
                assert(exists|p: usize| bv.contains(p));
            }
            filtered.insert(mapping.key_at(i).duplicate(), both);
            assert(sets_view(filtered) =~= before.insert(key, bv));
        } else {
            assert(bv =~= Set::empty());
        }
        i += 1;
    }
    proof {
        assert(mapping.key_seq().take(n as int) =~= mapping.key_seq());
        assert(sets_view(filtered) =~= narrowed(all, keep@));
    }
    filtered
}

impl TopKParetoCandidateSelector {
    /// How many candidates are drawn from.
    pub closed spec fn pool(&self) -> usize {
        self.k
    }

    /// The source of chance.
    pub closed spec fn generator(&self) -> StdRng {
        self.rng
    }

    /// Whether `r` is what the selector chooses where `order` lists the candidates,
    /// the best first, and `after` the selector that is left.
    pub open spec fn chose<Id: DataId>(
        &self,
        after: Self,
        state: GEPAState<Id>,
        order: Seq<usize>,
        r: Result<usize>,
    ) -> bool {
        let n = order.len();
        let k = if self.pool() <= n {
            self.pool() as int
        } else {
            n as int
        };
        let left = narrowed(state.frontier(), order.take(k).to_set());
        &&& strongest_order(order, state.mean_scores())
        &&& if left.dom() =~= Set::empty() {
            &&& r == Ok::<usize, GEPAError>(
                best_place(state.mean_scores(), state.mean_scores().len() as int) as usize,
            )
            &&& after == *self
        } else {
            &&& selected(left, state.mean_scores(), self.generator(), after.generator(), r)
            &&& after.pool() == self.pool()
        }
    }

    /// Whether `after` may be left once the selector has chosen `r`.
    pub open spec fn leaves<Id: DataId>(
        &self,
        after: Self,
        state: GEPAState<Id>,
        r: Result<usize>,
    ) -> bool {
        if state.program_candidates@.len() == 0 {
            after == *self
        } else {
            exists|order: Seq<usize>| #[trigger] self.chose(after, state, order, r)
        }
    }

    /// A selector with a pool size and a seed.
    ///
    /// # Errors
    /// A configuration error where `k` is 0.
    pub fn new(k: usize, seed: u64) -> (r: Result<Self>)
        ensures
            match r {
                Ok(s) => k > 0 && s.pool() == k && s.generator() == seeded_generator(seed),
                Err(e) => {
                    &&& k == 0
                    &&& e matches GEPAError::Config(text)
                    &&& text@ == "k must be a positive integer"@
                },
            },
    {
        if k == 0 {
            return Err(GEPAError::Config("k must be a positive integer".to_owned()));
        }
        Ok(TopKParetoCandidateSelector { k, rng: seeded(seed) })
    }
}

impl<Id: DataId> CandidateSelector<Id> for TopKParetoCandidateSelector {
    /// A program that is left of the fronts, restricted to the candidates with
    /// the best mean scores; the best of these where no front has one.
    open spec fn may_give(&self, state: GEPAState<Id>, r: Result<usize>) -> bool {
        match r {
            Ok(i) => state.program_candidates@.len() > 0 && exists|order: Seq<usize>|
                #[trigger] strongest_order(order, state.mean_scores()) && {
                    let n = order.len();
                    let k = if self.pool() <= n {
                        self.pool() as int
                    } else {
                        n as int
                    };
                    let left = narrowed(state.frontier(), order.take(k).to_set());
                    if left.dom() =~= Set::empty() {
                        i == best_place(state.mean_scores(), state.mean_scores().len() as int)
                    } else {
                        &&& survives(i, left, state.mean_scores())
                        &&& may_select(left, state.mean_scores(), self.generator(), r)
                    }
                },
            Err(e) => e is NoCandidates && state.program_candidates@.len() == 0,
        }
    }

    /// The generator that the draw leaves, and else the same selector.
    open spec fn may_leave(&self, after: &Self, state: GEPAState<Id>, r: Result<usize>) -> bool {
        self.leaves(*after, state, r)
    }

    fn select_candidate_idx(&mut self, state: &GEPAState<Id>) -> (r: Result<usize>) {
        let scores = state.program_full_scores_val_set();
        let n: usize = scores.len();
        if n == 0 {
            return Err(GEPAError::NoCandidates);
        }
        let k: usize = if self.k <= n {
            self.k
        } else {
            n
        };
        let order = strongest_first(&scores);
        let ghost all = order@;
        let mut top = order;
        top.truncate(k);
        let keep = set_of(&top);
        let mapping = state.get_pareto_front_mapping();
        let filtered = narrow(&mapping, &keep);
        let ghost left = narrowed(state.frontier(), all.take(k as int).to_set());
        proof {
            assert(top@ =~= all.take(k as int));
            assert(strongest_order(all, state.mean_scores()));
            assert(sets_view(filtered) == left);
            assert(filtered@.dom() =~= left.dom());
        }
        if filtered.is_empty() {
            proof {
                best_place_in_range(scores@, scores@.len() as int);
            }
            let r = idxmax(&scores);
            assert(old(self).chose(*self, *state, all, r));
            return r;
        }
        let r = select_program_candidate_from_pareto_front(&filtered, &scores, &mut self.rng);
        proof {
            assert(!no_program(left)) by {
                filtered.lemma_entry(0);
                let key = filtered.key_seq()[0];
                assert(left.dom().contains(key));
                let p = choose|p: usize|
                    #[trigger] state.frontier()[key].contains(p) && all.take(
                        k as int,
                    ).to_set().contains(p);
                assert(left[key].contains(p));
            }
            assert(r is Ok);
            assert(may_select(left, state.mean_scores(), old(self).generator(), r));
            assert(old(self).chose(*self, *state, all, r));
            let p = r->Ok_0;
            survivor_is_on_the_frontier(p, left, state.mean_scores());
            let key = choose|key: FrontierKeyView<Id::V>|
                left.dom().contains(key) && (#[trigger] left[key]).contains(p);
            assert(state.frontier()[key].contains(p));
        }
        r
    }
}

} // verus!
