//! Scores: double-precision numbers held as their bit patterns.
//!
//! The library orders, compares and stores scores, which needs no floating
//! point arithmetic: the order of two finite numbers can be read off their bit
//! patterns. Where a sum, a mean or a product is called for, the caller hands
//! in a [`ScoreArithmetic`].
use vstd::prelude::*;

use crate::laws::scores::top_score_is_the_greatest;

verus! {

/// The sign bit of a double-precision number.
pub const SIGN_BIT: u64 = 0x8000_0000_0000_0000;

/// The magnitude bits of an infinity; a greater magnitude is not a number.
pub const INFINITE_MAGNITUDE: u64 = 0x7ff0_0000_0000_0000;

/// A double-precision score. Higher is better.
///
/// `==` compares bit patterns; [`Score::equals`] compares the numbers.
#[derive(Clone, Copy, Debug, PartialEq, Eq, Structural)]
pub struct Score {
    /// The bits in the binary64 interchange format.
    pub bits: u64,
}

impl Score {
    /// The bits without the sign.
    pub open spec fn magnitude(self) -> int {
        if self.bits >= SIGN_BIT {
            self.bits - SIGN_BIT
        } else {
            self.bits as int
        }
    }

    /// Whether the bit pattern stands for no number.
    pub open spec fn nan(self) -> bool {
        self.magnitude() > INFINITE_MAGNITUDE
    }

    /// Whether the bit pattern stands for a number that is not infinite.
    pub open spec fn finite(self) -> bool {
        self.magnitude() < INFINITE_MAGNITUDE
    }

    /// The place of the number on the number line: of two numbers, the greater
    /// has the greater place, and both zeros have place 0.
    pub open spec fn place(self) -> int {
        if self.bits >= SIGN_BIT {
            -self.magnitude()
        } else {
            self.magnitude()
        }
    }

    /// `self > other`, as numbers; false where either is not a number.
    pub open spec fn above(self, other: Score) -> bool {
        &&& !self.nan()
        &&& !other.nan()
        &&& self.place() > other.place()
    }

    /// `self == other`, as numbers; false where either is not a number.
    pub open spec fn level(self, other: Score) -> bool {
        &&& !self.nan()
        &&& !other.nan()
        &&& self.place() == other.place()
    }

    /// `self >= other`, as numbers.
    pub open spec fn at_least(self, other: Score) -> bool {
        self.above(other) || self.level(other)
    }

    /// The greater of the two; where one is not a number, the other.
    pub open spec fn higher(self, other: Score) -> Score {
        if self.nan() || other.above(self) {
            other
        } else {
            self
        }
    }

    /// The number with the opposite sign.
    pub open spec fn opposite(self) -> Score {
        Score {
            bits: (if self.bits >= SIGN_BIT {
                self.bits - SIGN_BIT
            } else {
                self.bits + SIGN_BIT
            }) as u64,
        }
    }

    /// The score with the given bits.
    pub fn from_bits(bits: u64) -> (s: Score)
        ensures
            s.bits == bits,
    {
        Score { bits }
    }

    /// Positive zero.
    pub fn zero() -> (s: Score)
        ensures
            s == (Score { bits: 0 }),
            s.place() == 0,
            !s.nan(),
    {
        Score { bits: 0 }
    }

    /// One.
    pub fn one() -> (s: Score)
        ensures
            s == (Score { bits: 0x3ff0_0000_0000_0000 }),
    {
        Score { bits: 0x3ff0_0000_0000_0000 }
    }

    /// Negative infinity, the score of a program that was seen on no example.
    pub fn neg_infinity() -> (s: Score)
        ensures
            s == lowest(),
    {
        Score { bits: 0xfff0_0000_0000_0000 }
    }

    fn signed(&self) -> (p: i64)
        ensures
            p == self.place(),
    {
        if self.bits >= SIGN_BIT {
            -((self.bits - SIGN_BIT) as i64)
        } else {
            self.bits as i64
        }
    }

    /// Whether this is not a number.
    pub fn is_nan(&self) -> (b: bool)
        ensures
            b == self.nan(),
    {
        let magnitude: u64 = if self.bits >= SIGN_BIT {
            self.bits - SIGN_BIT
        } else {
            self.bits
        };
        magnitude > INFINITE_MAGNITUDE
    }

    /// Whether this is a number and not infinite.
    pub fn is_finite(&self) -> (b: bool)
        ensures
            b == self.finite(),
    {
        let magnitude: u64 = if self.bits >= SIGN_BIT {
            self.bits - SIGN_BIT
        } else {
            self.bits
        };
        magnitude < INFINITE_MAGNITUDE
    }

    /// `self > other`, as numbers.
    pub fn exceeds(&self, other: &Score) -> (b: bool)
        ensures
            b == self.above(*other),
    {
        !self.is_nan() && !other.is_nan() && self.signed() > other.signed()
    }

    /// `self == other`, as numbers.
    pub fn equals(&self, other: &Score) -> (b: bool)
        ensures
            b == self.level(*other),
    {
        !self.is_nan() && !other.is_nan() && self.signed() == other.signed()
    }

    /// `self >= other`, as numbers.
    pub fn reaches(&self, other: &Score) -> (b: bool)
        ensures
            b == self.at_least(*other),
    {
        self.exceeds(other) || self.equals(other)
    }

    /// The greater of the two; where one is not a number, the other.
    pub fn greater(&self, other: &Score) -> (s: Score)
        ensures
            s == self.higher(*other),
    {
        if self.is_nan() || other.exceeds(self) {
            *other
        } else {
            *self
        }
    }

    /// The number with the opposite sign.
    pub fn negated(&self) -> (s: Score)
        ensures
            s == self.opposite(),
    {
        if self.bits >= SIGN_BIT {
            Score { bits: self.bits - SIGN_BIT }
        } else {
            Score { bits: self.bits + SIGN_BIT }
        }
    }
}

/// Negative infinity.
pub open spec fn lowest() -> Score {
    Score { bits: 0xfff0_0000_0000_0000 }
}

/// The floating point operations that the optimizer needs.
///
/// The library assumes nothing of the results: what a function does with them
/// is stated for every result that may come back.
pub trait ScoreArithmetic {
    /// The sum of the scores, in their order.
    fn sum(&self, scores: &Vec<Score>) -> Score;

    /// The mean of the scores, which are at least one.
    fn mean(&self, scores: &Vec<Score>) -> Score;

    /// `a + b`.
    fn plus(&self, a: Score, b: Score) -> Score;

    /// The point that the random word `word` picks between 0 and `limit`.
    fn point(&self, word: u64, limit: Score) -> Score;

    /// The number, written out.
    fn text(&self, s: Score) -> String;

    /// The number that `token` spells, if it spells one.
    fn parse(&self, token: &String) -> Option<Score>;
}

/// `total` is what `arith` returned for the sum of `scores`.
pub open spec fn sums_to<A: ScoreArithmetic>(arith: A, scores: Seq<Score>, total: Score) -> bool {
    exists|list: Vec<Score>|
        list@ == scores && #[trigger] call_ensures(A::sum, (&arith, &list), total)
}

/// `average` is what `arith` returned for the mean of `scores`.
pub open spec fn averages_to<A: ScoreArithmetic>(
    arith: A,
    scores: Seq<Score>,
    average: Score,
) -> bool {
    exists|list: Vec<Score>|
        list@ == scores && #[trigger] call_ensures(A::mean, (&arith, &list), average)
}

/// The place of the best score among the first `n`: the first of them that
/// every later one fails to exceed.
pub open spec fn best_place(scores: Seq<Score>, n: int) -> int
    decreases n,
{
    if n <= 1 {
        0
    } else {
        let before = best_place(scores, n - 1);
        if scores[n - 1].above(scores[before]) {
            n - 1
        } else {
            before
        }
    }
}

/// The greatest score of `scores`, or negative infinity where there is none.
pub open spec fn top_score(scores: Seq<Score>) -> Score
    decreases scores.len(),
{
    if scores.len() == 0 {
        lowest()
    } else {
        top_score(scores.drop_last()).higher(scores.last())
    }
}

/// The greatest of `scores`, or negative infinity where there is none.
pub fn greatest(scores: &Vec<Score>) -> (s: Score)
    ensures
        s == top_score(scores@),
        !s.nan(),
        forall|i: int|
            0 <= i < scores@.len() && !scores@[i].nan() ==> s.at_least(#[trigger] scores@[i]),
        (exists|i: int| 0 <= i < scores@.len() && !(#[trigger] scores@[i]).nan())
            ==> scores@.contains(s),
{
    let mut best = Score::neg_infinity();
    let mut i: usize = 0;
    while i < scores.len()
        invariant
            i <= scores.len(),
            best == top_score(scores@.take(i as int)),
        decreases scores.len() - i,
    {
        assert(scores@.take(i + 1).drop_last() =~= scores@.take(i as int));
        best = best.greater(&scores[i]);
        i += 1;
    }
    assert(scores@.take(i as int) =~= scores@);
    proof {
        top_score_is_the_greatest(scores@);
    }
    best
}

/// Among numbers, the best place holds a greatest score, and the first one.
pub proof fn best_place_is_first_maximum(scores: Seq<Score>, n: int)
    requires
        1 <= n <= scores.len(),
        forall|i: int| 0 <= i < n ==> !(#[trigger] scores[i]).nan(),
    ensures
        0 <= best_place(scores, n) < n,
        forall|i: int|
            0 <= i < n ==> scores[best_place(scores, n)].at_least(#[trigger] scores[i]),
        forall|i: int|
            0 <= i < best_place(scores, n) ==> scores[best_place(scores, n)].above(
                #[trigger] scores[i],
            ),
    decreases n,
{
    if n > 1 {
        best_place_is_first_maximum(scores, n - 1);
    }
}

/// The best place is a place.
pub proof fn best_place_in_range(scores: Seq<Score>, n: int)
    requires
        1 <= n <= scores.len(),
    ensures
        0 <= best_place(scores, n) < n,
    decreases n,
{
    if n > 1 {
        best_place_in_range(scores, n - 1);
    }
}

} // verus!
