//! Reproducible random draws.

use rand::distributions::Standard;
use rand::rngs::StdRng;
use rand::{Rng, SeedableRng};
use vstd::prelude::*;

verus! {

/// The number below `bound` that a generator seeded with `seed` draws first.
pub uninterp spec fn drawn_start(seed: u64, bound: u64) -> u64;

/// The `count` words that the same generator draws after that number.
pub uninterp spec fn drawn_words(seed: u64, bound: u64, count: usize) -> Seq<u64>;

/// Draws with `rand`'s `StdRng`: `seed_from_u64` seeds it, `gen_range` draws a
/// number from `0..bound`, which it promises to lie in that range and which
/// panics on an empty one, and `sample_iter` with `Standard` then yields
/// uniformly distributed words, of which `count` are taken. The generator is a
/// fixed algorithm, so that what it draws is a function of the seed and of the
/// draws before; what that function is stays unsaid.
#[verifier::external_body]
pub(crate) fn draw(seed: u64, bound: u64, count: usize) -> (drawn: (u64, Vec<u64>))
    requires
        0 < bound,
    ensures
        drawn.0 == drawn_start(seed, bound),
        drawn.0 < bound,
        drawn.1@ == drawn_words(seed, bound, count),
        drawn.1@.len() == count,
{
    let mut generator = StdRng::seed_from_u64(seed);
    let start = generator.gen_range(0..bound);
    let words = generator.sample_iter(Standard).take(count).collect();
    (start, words)
}

/// The seed of one restart, mixed from the base seed and the restart's number.
pub open spec fn derived_seed_value(base: u64, restart: u64) -> u64 {
    let start = base.wrapping_add(
        (restart as u64).wrapping_add(1).wrapping_mul(0x9e37_79b9_7f4a_7c15),
    );
    let once = (start ^ (start >> 30)).wrapping_mul(0xbf58_476d_1ce4_e5b9);
    let twice = (once ^ (once >> 27)).wrapping_mul(0x94d0_49bb_1331_11eb);
    twice ^ (twice >> 31)
}

/// Mixes the seed of one restart.
pub fn derived_seed(base: u64, restart: u64) -> (seed: u64)
    ensures
        seed == derived_seed_value(base, restart),
{
    let start: u64 = base.wrapping_add(
        restart.wrapping_add(1).wrapping_mul(0x9e37_79b9_7f4a_7c15),
    );
    let once: u64 = (start ^ (start >> 30)).wrapping_mul(0xbf58_476d_1ce4_e5b9);
    let twice: u64 = (once ^ (once >> 27)).wrapping_mul(0x94d0_49bb_1331_11eb);
    twice ^ (twice >> 31)
}

/// One of `width` positions, drawn from a word with a lean towards the first:
/// the square of the word's upper 53 bits, as a fraction of one, scaled to `width`.
pub open spec fn leaning_pick(word: u64, width: int) -> int {
    let upper = (word / 2048) as int;
    (upper * upper * width) / 0x400_0000_0000_0000_0000_0000_0000
}

/// Draws one of `width` positions from a word.
pub fn pick(word: u64, width: usize) -> (position: usize)
    requires
        0 < width <= 4,
    ensures
        position == leaning_pick(word, width as int),
        position < width,
{
    let upper: u128 = (word / 2048) as u128;
    assert(upper * upper < 0x400_0000_0000_0000_0000_0000_0000int) by (nonlinear_arith)
        requires
            upper < 0x20_0000_0000_0000,
    ;
    assert(upper * upper >= 0) by (nonlinear_arith);
    let square: u128 = upper * upper;
    assert(square * width < 0x400_0000_0000_0000_0000_0000_0000int * 4) by (nonlinear_arith)
        requires
            square < 0x400_0000_0000_0000_0000_0000_0000int,
            0 < width <= 4,
    ;
    let scaled: u128 = square * (width as u128);
    assert(scaled < 0x400_0000_0000_0000_0000_0000_0000int * width) by (nonlinear_arith)
        requires
            scaled == square * width,
            square < 0x400_0000_0000_0000_0000_0000_0000int,
            0 < width,
    ;
    (scaled / 0x400_0000_0000_0000_0000_0000_0000) as usize
}

} // verus!
