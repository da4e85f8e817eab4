//! Draws from the pseudo-random generator.
//!
//! What a draw gives depends on the generator alone: equal generators give equal
//! draws. Which draws a generator gives is not known here.
use rand::rngs::StdRng;
use rand::seq::SliceRandom;
use rand::{Rng, RngCore, SeedableRng};
use vstd::prelude::*;

verus! {

/// `rand::rngs::StdRng`, whose state is not looked into.
#[verifier::external_type_specification]
#[verifier::external_body]
pub struct ExStdRng(StdRng);

/// The generator that a seed gives.
pub uninterp spec fn seeded_generator(seed: u64) -> StdRng;

/// `StdRng::seed_from_u64`: the generator depends on the seed alone.
#[verifier::external_body]
pub(crate) fn seeded(seed: u64) -> (rng: StdRng)
    ensures
        rng == seeded_generator(seed),
{
    StdRng::seed_from_u64(seed)
}

/// What a generator draws from `0..n` on a machine with words of `word_bits`
/// bits, and the generator that is left.
pub uninterp spec fn drawn_below(rng: StdRng, n: usize, word_bits: u32) -> (usize, StdRng);

/// `Rng::gen_range` over `0..n`, which panics where the range is empty: the
/// draw lies in the range. It depends on the generator, on `n`, and on the width
/// of a machine word, which is as much as is taken from the generator at a time.
#[verifier::external_body]
pub(crate) fn draw_below(rng: &mut StdRng, n: usize) -> (r: usize)
    requires
        n > 0,
    ensures
        r < n,
        (r, *final(rng)) == drawn_below(*old(rng), n, usize::BITS),
{
    rng.gen_range(0..n)
}

/// The next word of a generator, and the generator that is left.
pub uninterp spec fn drawn_word(rng: StdRng) -> (u64, StdRng);

/// `RngCore::next_u64`: the word depends on the generator alone.
#[verifier::external_body]
pub(crate) fn draw_word(rng: &mut StdRng) -> (word: u64)
    ensures
        (word, *final(rng)) == drawn_word(*old(rng)),
{
    rng.next_u64()
}

/// A list as a generator shuffles it, and the generator that is left.
pub uninterp spec fn shuffled_list(rng: StdRng, list: Seq<usize>) -> (Seq<usize>, StdRng);

/// `SliceRandom::shuffle`: the same elements, in an order that depends on the
/// generator and on the list.
#[verifier::external_body]
pub(crate) fn shuffle(list: &mut Vec<usize>, rng: &mut StdRng)
    ensures
        final(list)@.to_multiset() == old(list)@.to_multiset(),
        (final(list)@, *final(rng)) == shuffled_list(*old(rng), old(list)@),
{
    list.shuffle(rng);
}

/// What a generator chooses of a list, and the generator that is left.
pub uninterp spec fn chosen_some(rng: StdRng, list: Seq<usize>, amount: usize) -> (
    Seq<usize>,
    StdRng,
);

/// `SliceRandom::choose_multiple`: `amount` elements of the list, or all of
/// them where there are fewer, from distinct positions and in some order. They
/// depend on the generator, on the list and on `amount`.
#[verifier::external_body]
pub(crate) fn choose_some(list: &Vec<usize>, amount: usize, rng: &mut StdRng) -> (r: Vec<usize>)
    ensures
        r@.len() == if amount <= list@.len() {
            amount as nat
        } else {
            list@.len()
        },
        r@.to_multiset().subset_of(list@.to_multiset()),
        (r@, *final(rng)) == chosen_some(*old(rng), list@, amount),
{
    list.choose_multiple(rng, amount).copied().collect()
}

/// The element that a generator chooses of a list, and the generator that is
/// left.
pub uninterp spec fn chosen_one(rng: StdRng, list: Seq<usize>) -> (Option<usize>, StdRng);

/// `SliceRandom::choose`: an element of the list, unless it is empty. It depends
/// on the generator and on the list.
#[verifier::external_body]
pub(crate) fn choose_one(list: &Vec<usize>, rng: &mut StdRng) -> (r: Option<usize>)
    ensures
        match r {
            Some(p) => list@.contains(p),
            None => list@.len() == 0,
        },
        (r, *final(rng)) == chosen_one(*old(rng), list@),
{
    list.choose(rng).copied()
}

} // verus!
