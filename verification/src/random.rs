//! The random source of the generators: the stream of a ChaCha generator with
//! eight rounds, addressed by seed and position.
//!
//! A [`Dice`] holds no generator, only the seed and how many words of the
//! stream have been drawn; every draw seeks the stream to that position. So a
//! draw is a function of the dice, and the same dice always roll the same.
//! What is assumed of a draw beyond that is only what holds of every outcome,
//! so whatever the generators promise of their mazes they promise for every
//! seed.

use vstd::prelude::*;
use rand::Rng;
use rand::SeedableRng;
use rand::seq::SliceRandom;
use rand_chacha::ChaCha8Rng;
use crate::maze::Direction;

verus! {

/// A seeded random source: the seed of the stream and the number of its
/// 32-bit words drawn so far.
#[derive(Copy, Clone, Debug, PartialEq, Eq, Structural)]
pub struct Dice {
    pub seed: u64,
    pub drawn: u128,
}

/// What `Rng::random::<bool>` gives on the stream seeded with `seed` and
/// sought to word `drawn`, and the position of the stream after it.
pub uninterp spec fn chacha8_coin(seed: u64, drawn: u128) -> (bool, u128);

/// What `Rng::random_range(0..bound)` gives on the stream seeded with `seed`
/// and sought to word `drawn`, and the position of the stream after it.
pub uninterp spec fn chacha8_below(seed: u64, drawn: u128, bound: usize) -> (usize, u128);

/// How `SliceRandom::shuffle` leaves `items` on the stream seeded with `seed`
/// and sought to word `drawn`, and the position of the stream after it.
pub uninterp spec fn chacha8_shuffled(seed: u64, drawn: u128, items: Seq<Direction>) -> (
    Seq<Direction>,
    u128,
);

/// Seeks the stream of `ChaCha8Rng::seed_from_u64(seed)` to word `drawn`
/// with `set_word_pos`, draws one `bool` with `Rng::random`, and reads the
/// new position with `get_word_pos`. The outcome is a function of seed and
/// position; nothing else is claimed of it.
#[verifier::external_body]
fn draw_coin(seed: u64, drawn: u128) -> (out: (bool, u128))
    ensures
        out == chacha8_coin(seed, drawn),
{
    let mut stream = ChaCha8Rng::seed_from_u64(seed);
    stream.set_word_pos(drawn);
    let heads = stream.random::<bool>();
    (heads, stream.get_word_pos())
}

/// Seeks the stream as [`draw_coin`] does and draws one number with
/// `Rng::random_range(0..bound)`: a function of seed, position and bound,
/// and less than `bound`. The outside function panics on an empty range,
/// hence `bound > 0`.
#[verifier::external_body]
fn draw_below(seed: u64, drawn: u128, bound: usize) -> (out: (usize, u128))
    requires
        bound > 0,
    ensures
        out == chacha8_below(seed, drawn, bound),
        out.0 < bound,
{
    let mut stream = ChaCha8Rng::seed_from_u64(seed);
    stream.set_word_pos(drawn);
    let pick = stream.random_range(0..bound);
    (pick, stream.get_word_pos())
}

/// Seeks the stream as [`draw_coin`] does and permutes `items` in place
/// with `SliceRandom::shuffle`: the outcome is a function of seed, position
/// and the items, and holds the same directions as often as before. Returns
/// the new position.
#[verifier::external_body]
fn draw_shuffle(seed: u64, drawn: u128, items: &mut Vec<Direction>) -> (next: u128)
    ensures
        (final(items)@, next) == chacha8_shuffled(seed, drawn, old(items)@),
        final(items)@.to_multiset() == old(items)@.to_multiset(),
{
    let mut stream = ChaCha8Rng::seed_from_u64(seed);
    stream.set_word_pos(drawn);
    items.shuffle(&mut stream);
    stream.get_word_pos()
}

impl Dice {
    /// Dice at the beginning of the stream of `seed`.
    pub fn new(seed: u64) -> (dice: Dice)
        ensures
            dice == (Dice { seed, drawn: 0 }),
    {
        Dice { seed, drawn: 0 }
    }

    /// The fall of the next coin, and the dice after it.
    pub open spec fn coin_spec(self) -> (bool, Dice) {
        let (heads, drawn) = chacha8_coin(self.seed, self.drawn);
        (heads, Dice { seed: self.seed, drawn })
    }

    /// The next number below `bound`, and the dice after it.
    pub open spec fn below_spec(self, bound: usize) -> (usize, Dice) {
        let (pick, drawn) = chacha8_below(self.seed, self.drawn, bound);
        (pick, Dice { seed: self.seed, drawn })
    }

    /// The direction picked next from `candidates`, and the dice after it:
    /// the candidates are shuffled and the first is taken.
    pub open spec fn pick_spec(self, candidates: Seq<Direction>) -> (Direction, Dice) {
        let (shuffled, drawn) = chacha8_shuffled(self.seed, self.drawn, candidates);
        (shuffled[0], Dice { seed: self.seed, drawn })
    }

    /// Tosses a coin.
    pub fn coin(&mut self) -> (heads: bool)
        ensures
            (heads, *final(self)) == old(self).coin_spec(),
    {
        let (heads, drawn) = draw_coin(self.seed, self.drawn);
        self.drawn = drawn;
        heads
    }

    /// Draws a number below `bound`.
    pub fn below(&mut self, bound: usize) -> (pick: usize)
        requires
            bound > 0,
        ensures
            pick < bound,
            (pick, *final(self)) == old(self).below_spec(bound),
    {
        let (pick, drawn) = draw_below(self.seed, self.drawn, bound);
        self.drawn = drawn;
        pick
    }

    /// Picks one of `candidates`: they are shuffled and the first is taken.
    pub fn pick(&mut self, candidates: Vec<Direction>) -> (picked: Direction)
        requires
            candidates@.len() > 0,
        ensures
            candidates@.contains(picked),
            (picked, *final(self)) == old(self).pick_spec(candidates@),
    {
        let mut shuffled = candidates;
        let drawn = draw_shuffle(self.seed, self.drawn, &mut shuffled);
        self.drawn = drawn;
        proof {
            candidates@.to_multiset_ensures();
            shuffled@.to_multiset_ensures();
            assert(shuffled@.len() == candidates@.len());
            let first = shuffled@[0];
            assert(shuffled@.contains(first));
            assert(shuffled@.to_multiset().count(first) > 0);
            assert(candidates@.to_multiset().count(first) > 0);
        }
        shuffled[0]
    }
}

} // verus!
