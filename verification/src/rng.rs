//! Seeded random draws.
//!
//! The state of the generator is a plain value, the seed and a position in the
//! stream of 32-bit words that the seed gives, so that a draw is a function of
//! that state.

use rand::{Rng, SeedableRng};
use rand_chacha::ChaCha8Rng;
use vstd::prelude::*;

verus! {

/// What `random_range(0..bound)` of `rand` draws from the ChaCha8 generator of
/// a seed at a word position, and the word position after the draw.
pub uninterp spec fn chacha8_below(seed: u64, word_pos: u128, bound: usize) -> (usize, u128);

/// `SeedableRng::seed_from_u64` and `ChaCha8Rng::set_word_pos` put a generator
/// in place, `Rng::random_range(0..bound)` draws from it, and
/// `ChaCha8Rng::get_word_pos` tells where the draw left it. The draw lies in
/// the range and, with the position after it, depends on the arguments alone.
#[verifier::external_body]
pub(crate) fn draw_below(seed: u64, word_pos: u128, bound: usize) -> (drawn: (usize, u128))
    requires
        bound > 0,
    ensures
        drawn == chacha8_below(seed, word_pos, bound),
        drawn.0 < bound,
{
    let mut rng = ChaCha8Rng::seed_from_u64(seed);
    rng.set_word_pos(word_pos);
    let value: usize = rng.random_range(0..bound);
    (value, rng.get_word_pos())
}

} // verus!
