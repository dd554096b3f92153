//! Seeded variation among alternatives of similar quality.

use vstd::prelude::*;

verus! {

/// A word turned left by 27 bits.
pub open spec fn turned_left(value: u64) -> u64 {
    (value << 27) | (value >> 37)
}

/// One track mixed into a running key.
pub open spec fn mixed_in(value: u64, track: usize) -> u64 {
    turned_left(value ^ (track as u64).wrapping_add(0x9e37_79b9_7f4a_7c15)).wrapping_mul(
        0x94d0_49bb_1331_11eb,
    )
}

/// The tracks of a route from `at` on mixed into a running key.
pub open spec fn mixed_from(route: Seq<usize>, at: int, value: u64) -> u64
    decreases route.len() - at,
{
    if at >= route.len() {
        value
    } else {
        mixed_from(route, at + 1, mixed_in(value, route[at]))
    }
}

/// The bits of a key spread out.
pub open spec fn spread(value: u64) -> u64 {
    let once = (value ^ (value >> 30)).wrapping_mul(0xbf58_476d_1ce4_e5b9);
    let twice = (once ^ (once >> 27)).wrapping_mul(0x94d0_49bb_1331_11eb);
    twice ^ (twice >> 31)
}

/// The number by which a candidate at a position of a route is shuffled.
pub open spec fn variation_key_of(
    seed: u64,
    route: Seq<usize>,
    position: usize,
    candidate: usize,
) -> u64 {
    spread(
        mixed_from(
            route,
            0,
            seed ^ (candidate as u64).wrapping_mul(0x9e37_79b9_7f4a_7c15) ^ (
            position as u64).wrapping_mul(0xbf58_476d_1ce4_e5b9),
        ),
    )
}

/// Computes the number by which a candidate is shuffled.
pub fn variation_key(seed: u64, route: &[usize], position: usize, candidate: usize) -> (key: u64)
    ensures
        key == variation_key_of(seed, route@, position, candidate),
{
    let mut value: u64 = seed ^ (candidate as u64).wrapping_mul(0x9e37_79b9_7f4a_7c15) ^ (
    position as u64).wrapping_mul(0xbf58_476d_1ce4_e5b9);
    let ghost start = value;
    let mut at: usize = 0;
    while at < route.len()
        invariant
            at <= route@.len(),
            mixed_from(route@, 0, start) == mixed_from(route@, at as int, value),
        decreases route@.len() - at,
    {
        let mixed: u64 = value ^ (route[at] as u64).wrapping_add(0x9e37_79b9_7f4a_7c15);
        value = ((mixed << 27) | (mixed >> 37)).wrapping_mul(0x94d0_49bb_1331_11eb);
        at += 1;
    }
    let once: u64 = (value ^ (value >> 30)).wrapping_mul(0xbf58_476d_1ce4_e5b9);
    let twice: u64 = (once ^ (once >> 27)).wrapping_mul(0x94d0_49bb_1331_11eb);
    twice ^ (twice >> 31)
}

/// How many of `accepted` alternatives are shuffled: at zero percent only the
/// best, at a hundred percent all up to 32, and never fewer than `minimum` of
/// those in between.
pub open spec fn pool_length(accepted: int, percent: u8, minimum: int) -> int {
    if accepted == 0 || percent == 0 {
        if accepted < 1 {
            accepted
        } else {
            1
        }
    } else {
        let ceiling = if accepted < 32 {
            accepted
        } else {
            32
        };
        let floor = if minimum < 1 {
            1
        } else if minimum > ceiling {
            ceiling
        } else {
            minimum
        };
        floor + (ceiling - floor) * percent / 100
    }
}

/// Computes how many alternatives are shuffled.
pub fn varied_pool_length(accepted: usize, percent: u8, minimum: usize) -> (length: usize)
    requires
        percent <= 100,
    ensures
        length == pool_length(accepted as int, percent, minimum as int),
        length <= accepted,
        length <= 32,
{
    if accepted == 0 || percent == 0 {
        return if accepted < 1 { accepted } else { 1 };
    }
    let ceiling: usize = if accepted < 32 { accepted } else { 32 };
    let floor: usize = if minimum < 1 {
        1
    } else if minimum > ceiling {
        ceiling
    } else {
        minimum
    };
    let span: usize = ceiling - floor;
    assert(span * percent <= 32 * 100 && span * percent / 100 <= span) by (nonlinear_arith)
        requires
            span <= 32,
            percent <= 100,
    ;
    floor + span * (percent as usize) / 100
}

/// Without variation the pool is the best alternative alone, and no pool is
/// larger than 32 or than what was accepted.
pub proof fn pool_is_bounded(accepted: int, percent: u8, minimum: int)
    requires
        0 <= accepted,
        percent <= 100,
    ensures
        pool_length(accepted, percent, minimum) <= accepted,
        pool_length(accepted, percent, minimum) <= 32,
        accepted > 0 ==> 1 <= pool_length(accepted, percent, minimum),
        percent == 0 ==> pool_length(accepted, percent, minimum) <= 1,
{
    if accepted > 0 && percent > 0 {
        let ceiling = if accepted < 32 {
            accepted
        } else {
            32
        };
        let floor = if minimum < 1 {
            1
        } else if minimum > ceiling {
            ceiling
        } else {
            minimum
        };
        let span = ceiling - floor;
        assert(0 <= span * percent && span * percent / 100 <= span) by (nonlinear_arith)
            requires
                0 <= span,
                percent <= 100,
        ;
    }
}

} // verus!
