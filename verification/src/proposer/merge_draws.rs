//! What a generator draws on the way to a merge.
use rand::rngs::StdRng;
use vstd::prelude::*;

use crate::optimizer::adapter::{text_or_empty, Candidate};
use crate::optimizer::data_loader::DataId;
use crate::proposer::merge::{
    entries_of, merged_entries, mergeable, one_changed, overlap_enough, running_sums, AncestorLog,
    OverlapRule,
};
use crate::random::{chosen_one, chosen_some, drawn_word};
use crate::score::{sums_to, Score, ScoreArithmetic};
use crate::utils::pareto::ascending;

verus! {

/// The child that a component is taken from, or nothing where it is left to
/// chance: where one child kept the ancestor's text and the other changed it,
/// the one that changed it; where both changed it, the one with the higher
/// score; else the first.
pub open spec fn source_of(
    anc: Seq<char>,
    t1: Seq<char>,
    t2: Seq<char>,
    s1: Score,
    s2: Score,
    id1: usize,
    id2: usize,
) -> Option<usize> {
    if one_changed(anc, t1, t2) {
        Some(
            if anc == t1 {
                id2
            } else {
                id1
            },
        )
    } else if anc != t1 && anc != t2 {
        if s1.above(s2) {
            Some(id1)
        } else if s2.above(s1) {
            Some(id2)
        } else {
            None
        }
    } else {
        Some(id1)
    }
}

/// The children that the first `n` components are taken from, and the generator
/// that is left: where it is left to chance, the generator chooses.
pub open spec fn drawn_picks(
    anc: Seq<(Seq<char>, Seq<char>)>,
    e1: Seq<(Seq<char>, Seq<char>)>,
    e2: Seq<(Seq<char>, Seq<char>)>,
    s1: Score,
    s2: Score,
    id1: usize,
    id2: usize,
    rng: StdRng,
    n: int,
) -> (Seq<usize>, StdRng)
    decreases n,
{
    if n <= 0 {
        (seq![], rng)
    } else {
        let (before, rest) = drawn_picks(anc, e1, e2, s1, s2, id1, id2, rng, n - 1);
        let name = anc[n - 1].0;
        match source_of(
            text_or_empty(anc, name),
            text_or_empty(e1, name),
            text_or_empty(e2, name),
            s1,
            s2,
            id1,
            id2,
        ) {
            Some(p) => (before.push(p), rest),
            None => {
                let (p, after) = chosen_one(rest, seq![id1, id2]);
                (before.push(p->0), after)
            },
        }
    }
}

/// What two programs and their ancestor are drawn from.
pub struct MergePool {
    /// The parents of each program.
    pub parents: Seq<Vec<Option<usize>>>,
    /// The programs that may be merged.
    pub programs: Seq<usize>,
    /// The merges that were tried.
    pub tried: Seq<AncestorLog>,
    /// The mean score of each program.
    pub agg_scores: Seq<Score>,
    /// The programs.
    pub candidates: Seq<Candidate>,
}

impl MergePool {
    /// Whether `list` has the ancestors that a merge of `i` and `j` may be made
    /// with, in ascending order.
    pub open spec fn lists_ancestors(self, i: usize, j: usize, list: Seq<usize>) -> bool {
        &&& ascending(list)
        &&& forall|a: usize| #[trigger]
            list.contains(a) <==> mergeable(
                self.parents,
                self.programs,
                self.tried,
                self.agg_scores,
                self.candidates,
                i,
                j,
                a,
            )
    }
}

/// The scores of the programs in `list`.
pub open spec fn scores_of_programs(list: Seq<usize>, agg_scores: Seq<Score>) -> Seq<Score> {
    Seq::new(list.len(), |k: int| agg_scores[list[k] as int])
}

/// Whether `chosen` is the first element of `list` at which the running sum of
/// the scores reaches `point`, or the first of all where none does.
pub open spec fn weighted_pick<A: ScoreArithmetic>(
    arith: A,
    list: Seq<usize>,
    agg_scores: Seq<Score>,
    point: Score,
    chosen: usize,
) -> bool {
    exists|sums: Seq<Score>|
        #[trigger] running_sums(arith, list, agg_scores, sums) && {
            let k = sums.len() - 1;
            &&& forall|q: int| 1 <= q < k ==> !(#[trigger] sums[q]).at_least(point)
            &&& {
                ||| k > 0 && sums[k].at_least(point) && chosen == list[k - 1]
                ||| k == list.len() && !(k > 0 && sums[k].at_least(point)) && chosen == list[0]
            }
        }
}

/// Whether a generator draws `a` from a list of ancestors: each with a chance in
/// proportion to its score, or all alike where the scores do not add up to more
/// than zero.
pub open spec fn ancestor_drawn<A: ScoreArithmetic>(
    arith: A,
    list: Seq<usize>,
    agg_scores: Seq<Score>,
    rng: StdRng,
    after: StdRng,
    a: usize,
) -> bool {
    exists|total: Score| #[trigger]
        sums_to(arith, scores_of_programs(list, agg_scores), total) && if (Score {
            bits: 0,
        }).at_least(total) {
            (Some(a), after) == chosen_one(rng, list)
        } else {
            &&& after == drawn_word(rng).1
            &&& exists|point: Score| #[trigger]
                call_ensures(A::point, (&arith, drawn_word(rng).0, total), point)
                    && weighted_pick(arith, list, agg_scores, point, a)
        }
}

/// The smaller of the two, and the other.
pub open spec fn in_order(p: usize, q: usize) -> (usize, usize) {
    if q < p {
        (q, p)
    } else {
        (p, q)
    }
}

/// Whether `r` is what a draw of `i` and `j` comes to: the two and an ancestor that
/// is drawn for them, if they have one.
pub open spec fn pair_outcome<A: ScoreArithmetic>(
    pool: MergePool,
    arith: A,
    i: usize,
    j: usize,
    rng: StdRng,
    after: StdRng,
    r: Option<(usize, usize, usize)>,
) -> bool {
    exists|list: Seq<usize>| #[trigger]
        pool.lists_ancestors(i, j, list) && match r {
            None => list.len() == 0 && after == rng,
            Some((x, y, a)) => {
                &&& (x, y) == (i, j)
                &&& list.len() > 0
                &&& ancestor_drawn(arith, list, pool.agg_scores, rng, after, a)
            },
        }
}

/// Whether `r` is what one draw of two programs comes to.
pub open spec fn pair_attempt<A: ScoreArithmetic>(
    pool: MergePool,
    arith: A,
    rng: StdRng,
    after: StdRng,
    r: Option<(usize, usize, usize)>,
) -> bool {
    let (pair, rest) = chosen_some(rng, pool.programs, 2);
    let (i, j) = in_order(pair[0], pair[1]);
    pair_outcome(pool, arith, i, j, rest, after, r)
}

/// Whether `r` is what at most `n` draws of two programs come to: the first that
/// has an ancestor.
pub open spec fn pair_search<A: ScoreArithmetic>(
    pool: MergePool,
    arith: A,
    n: nat,
    rng: StdRng,
    after: StdRng,
    r: Option<(usize, usize, usize)>,
) -> bool
    decreases n,
{
    if n == 0 {
        r is None && after == rng
    } else {
        exists|mid: StdRng, first: Option<(usize, usize, usize)>| #[trigger]
            pair_attempt(pool, arith, rng, mid, first) && match first {
                Some(_) => r == first && after == mid,
                None => pair_search(pool, arith, (n - 1) as nat, mid, after, r),
            }
    }
}

/// A merge: its components, the two programs, their ancestor, and which of the
/// two each component is from.
pub type MergeView = (Seq<(Seq<char>, Seq<char>)>, usize, usize, usize, Seq<usize>);

/// Whether `r` is what at most `n` merges come to, each of at most `attempts`
/// draws of two programs: the first that gives nothing that an earlier merge gave
/// and whose programs share enough examples. Where no two programs are found, no
/// more are drawn.
pub open spec fn merge_search<Id: DataId, A: ScoreArithmetic>(
    pool: MergePool,
    arith: A,
    made: Seq<(usize, usize, Seq<usize>)>,
    rule: Option<OverlapRule<Id>>,
    attempts: nat,
    n: nat,
    rng: StdRng,
    after: StdRng,
    r: Option<MergeView>,
) -> bool
    decreases n,
{
    if n == 0 {
        r is None && after == rng
    } else {
        exists|mid: StdRng, found: Option<(usize, usize, usize)>| #[trigger]
            pair_search(pool, arith, attempts, rng, mid, found) && match found {
                None => r is None && after == mid,
                Some((id1, id2, ancestor)) => {
                    let anc = entries_of(pool.candidates, ancestor as int);
                    let e1 = entries_of(pool.candidates, id1 as int);
                    let e2 = entries_of(pool.candidates, id2 as int);
                    let (picks, rest) = drawn_picks(
                        anc,
                        e1,
                        e2,
                        pool.agg_scores[id1 as int],
                        pool.agg_scores[id2 as int],
                        id1,
                        id2,
                        mid,
                        anc.len() as int,
                    );
                    if made.contains((id1, id2, picks)) || !overlap_enough(rule, id1, id2) {
                        merge_search(
                            pool,
                            arith,
                            made,
                            rule,
                            attempts,
                            (n - 1) as nat,
                            rest,
                            after,
                            r,
                        )
                    } else {
                        &&& after == rest
                        &&& r == Some(
                            (merged_entries(anc, e1, e2, id1, picks), id1, id2, ancestor, picks),
                        )
                    }
                },
            }
    }
}

/// Whether `r` is the merge that a generator draws from the pool, and `after` the
/// generator that is left. With fewer than two programs to merge, or fewer than
/// three in all, nothing is drawn.
pub open spec fn merge_drawn<Id: DataId, A: ScoreArithmetic>(
    pool: MergePool,
    arith: A,
    made: Seq<(usize, usize, Seq<usize>)>,
    rule: Option<OverlapRule<Id>>,
    attempts: nat,
    rng: StdRng,
    after: StdRng,
    r: Option<MergeView>,
) -> bool {
    if pool.programs.len() < 2 || pool.parents.len() < 3 {
        r is None && after == rng
    } else {
        merge_search(pool, arith, made, rule, attempts, attempts, rng, after, r)
    }
}

} // verus!
