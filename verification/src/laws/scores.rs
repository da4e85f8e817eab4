//! The order of scores, and the greatest of several.
use vstd::prelude::*;

use crate::score::{best_place, lowest, top_score, Score};

verus! {

/// A bit pattern is no number just where its exponent bits are all set and its
/// fraction is not zero.
pub proof fn numbers_by_their_bits(s: Score)
    ensures
        s.nan() <==> (0x7ff0_0000_0000_0001 <= s.bits <= 0x7fff_ffff_ffff_ffff
            || 0xfff0_0000_0000_0001 <= s.bits),
        s.finite() <==> (s.bits <= 0x7fef_ffff_ffff_ffff || 0x8000_0000_0000_0000 <= s.bits
            <= 0xffef_ffff_ffff_ffff),
        lowest().bits == 0xfff0_0000_0000_0000u64,
{
}

/// Of two numbers of one sign the bits tell which is greater, the other way
/// round where the sign is negative; a positive number is above a negative one;
/// and the two zeros are equal.
pub proof fn order_by_bits(a: Score, b: Score)
    requires
        !a.nan(),
        !b.nan(),
    ensures
        a.bits <= 0x7fff_ffff_ffff_ffff && b.bits <= 0x7fff_ffff_ffff_ffff ==> (a.above(b)
            <==> a.bits > b.bits) && (a.level(b) <==> a.bits == b.bits),
        a.bits > 0x7fff_ffff_ffff_ffff && b.bits > 0x7fff_ffff_ffff_ffff ==> (a.above(b)
            <==> a.bits < b.bits) && (a.level(b) <==> a.bits == b.bits),
        a.bits <= 0x7fff_ffff_ffff_ffff && b.bits > 0x7fff_ffff_ffff_ffff ==> !b.above(a)
            && (a.level(b) <==> a.bits == 0 && b.bits == 0x8000_0000_0000_0000) && (a.above(b)
            <==> !(a.bits == 0 && b.bits == 0x8000_0000_0000_0000)),
{
}

/// Numbers are in a linear order; what is no number is above nothing, below
/// nothing and level with nothing.
pub proof fn scores_are_ordered(a: Score, b: Score, c: Score)
    ensures
        !a.nan() && !b.nan() ==> a.above(b) || b.above(a) || a.level(b),
        !(a.above(b) && b.above(a)),
        !(a.above(b) && a.level(b)),
        a.level(b) <==> b.level(a),
        a.above(b) && b.above(c) ==> a.above(c),
        a.level(b) && b.level(c) ==> a.level(c),
        a.level(b) && b.above(c) ==> a.above(c),
        a.above(b) && b.level(c) ==> a.above(c),
        a.at_least(b) <==> a.above(b) || a.level(b),
        !a.nan() ==> a.level(a) && a.at_least(lowest()),
        a.nan() || b.nan() ==> !a.above(b) && !a.level(b) && !a.at_least(b),
{
}

/// The greater of two numbers is one of them and at least both; of a number and
/// something that is none, it is the number.
pub proof fn higher_is_the_greater(a: Score, b: Score)
    ensures
        a.higher(b) == a || a.higher(b) == b,
        !a.nan() ==> a.higher(b).at_least(a),
        !b.nan() ==> a.higher(b).at_least(b),
{
}

/// A change of sign turns the order round, and twice it changes nothing.
pub proof fn opposites_turn_the_order(a: Score, b: Score)
    ensures
        a.opposite().opposite() == a,
        a.opposite() != a,
        a.opposite().nan() == a.nan(),
        a.above(b) <==> b.opposite().above(a.opposite()),
        a.level(b) <==> a.opposite().level(b.opposite()),
{
}

/// The top score of a list is at least every number in it. It is one of the
/// list, or negative infinity where the list has no number.
pub proof fn top_score_is_the_greatest(scores: Seq<Score>)
    ensures
        !top_score(scores).nan(),
        forall|i: int|
            0 <= i < scores.len() && !scores[i].nan() ==> top_score(scores).at_least(
                #[trigger] scores[i],
            ),
        (exists|i: int| 0 <= i < scores.len() && !(#[trigger] scores[i]).nan()) ==> scores.contains(
            top_score(scores),
        ),
        (forall|i: int| 0 <= i < scores.len() ==> (#[trigger] scores[i]).nan()) ==> top_score(scores)
            == lowest(),
    decreases scores.len(),
{
    if scores.len() > 0 {
        let before = scores.drop_last();
        let n = scores.len() - 1;
        top_score_is_the_greatest(before);
        let top = top_score(scores);
        assert forall|i: int| 0 <= i < scores.len() && !scores[i].nan() implies top.at_least(
            #[trigger] scores[i],
        ) by {
            if i < n {
                assert(before[i] == scores[i]);
                assert(top_score(before).at_least(before[i]));
            }
        }
        if exists|i: int| 0 <= i < before.len() && !(#[trigger] before[i]).nan() {
            let j = choose|j: int| 0 <= j < before.len() && before[j] == top_score(before);
            assert(scores[j] == top_score(before));
            assert(scores[n] == scores.last());
            assert(scores.contains(top));
        } else {
            assert(top_score(before) == lowest());
            if !scores.last().nan() {
                assert(scores[n] == scores.last());
                assert(scores.last().at_least(lowest()));
                assert(top == scores.last() || (top == lowest() && scores.last().level(lowest())));
                assert(scores.last().level(lowest()) ==> scores.last().bits == lowest().bits);
                assert(scores.contains(top));
            }
            assert forall|i: int| 0 <= i < n implies (#[trigger] scores[i]).nan() by {
                assert(before[i] == scores[i]);
            }
        }
        if forall|i: int| 0 <= i < scores.len() ==> (#[trigger] scores[i]).nan() {
            assert forall|i: int| 0 <= i < before.len() implies (#[trigger] before[i]).nan() by {
                assert(before[i] == scores[i]);
            }
            assert(scores[n].nan());
        }
    }
}

/// A sum that reaches the top of some scores is at least each of them; one that
/// does not is below some of them.
pub proof fn reaching_the_top_is_reaching_all(sum: Score, scores: Seq<Score>)
    requires
        !sum.nan(),
        scores.len() > 0,
        forall|i: int| 0 <= i < scores.len() ==> !(#[trigger] scores[i]).nan(),
    ensures
        sum.at_least(top_score(scores)) <==> forall|i: int|
            0 <= i < scores.len() ==> sum.at_least(#[trigger] scores[i]),
{
    top_score_is_the_greatest(scores);
    assert(!scores[0].nan());
    let k = choose|k: int| 0 <= k < scores.len() && scores[k] == top_score(scores);
    if sum.at_least(top_score(scores)) {
        assert forall|i: int| 0 <= i < scores.len() implies sum.at_least(#[trigger] scores[i]) by {
            assert(top_score(scores).at_least(scores[i]));
        }
    } else {
        assert(!sum.at_least(scores[k]));
    }
}

/// A merge that is accepted has a sum that is at least each parent's sum; one
/// that is not has a sum below one of them.
pub proof fn accepted_merge_reaches_both_parents(sum: Score, first: Score, second: Score)
    requires
        !sum.nan(),
        !first.nan(),
        !second.nan(),
    ensures
        sum.at_least(top_score(seq![first, second])) <==> sum.at_least(first) && sum.at_least(
            second,
        ),
        !sum.at_least(top_score(seq![first, second])) <==> first.above(sum) || second.above(sum),
{
    let both = seq![first, second];
    assert(both[0] == first && both[1] == second);
    reaching_the_top_is_reaching_all(sum, both);
}

/// The best place holds the top score.
pub proof fn best_place_has_the_top_score(scores: Seq<Score>)
    requires
        scores.len() > 0,
        forall|i: int| 0 <= i < scores.len() ==> !(#[trigger] scores[i]).nan(),
    ensures
        0 <= best_place(scores, scores.len() as int) < scores.len(),
        scores[best_place(scores, scores.len() as int)].level(top_score(scores)),
{
    let n = scores.len() as int;
    crate::score::best_place_is_first_maximum(scores, n);
    top_score_is_the_greatest(scores);
    assert(!scores[0].nan());
    let k = choose|k: int| 0 <= k < scores.len() && scores[k] == top_score(scores);
    assert(scores[best_place(scores, n)].at_least(scores[k]));
    assert(top_score(scores).at_least(scores[best_place(scores, n)]));
}

} // verus!
