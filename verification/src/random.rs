//! Random numbers, drawn from generators that this library does not verify.

use rand::Rng;
use vstd::prelude::*;

use crate::fixed::Real;

verus! {

/// A number drawn by `rand::Rng::random_range` from the inclusive range
/// `low..=high`, on the generator that `rand::rng` hands to this thread.
/// Believed of it: the number lies in the range. Which number comes is not
/// stated.
#[verifier::external_body]
pub(crate) fn random_between(low: Real, high: Real) -> (r: Real)
    requires
        low <= high,
    ensures
        low <= r <= high,
{
    rand::rng().random_range(low..=high)
}

/// A number below `bound`, drawn at random.
pub fn random_below(bound: usize) -> (r: usize)
    requires
        bound >= 1,
    ensures
        r < bound,
{
    let high: i64 = if (bound - 1) as u64 > 0x7fff_ffff_ffff_ffff {
        0x7fff_ffff_ffff_ffff
    } else {
        (bound - 1) as i64
    };
    random_between(0, high) as usize
}

/// A number drawn by `macroquad::rand::gen_range` between `low` and `high`,
/// on macroquad's one generator for the whole process. Believed of it: for
/// bounds that fit in 31 bits the number is neither under `low` nor over
/// `high`. Which number comes is not stated.
#[verifier::external_body]
pub(crate) fn quick_between(low: i64, high: i64) -> (r: i64)
    requires
        0 <= low <= high <= 0x7fff_ffff,
    ensures
        low <= r <= high,
{
    macroquad::rand::gen_range(low, high)
}

/// Thirty-two bits drawn by `macroquad::rand::rand`, on the same generator.
/// Nothing is believed of them.
#[verifier::external_body]
pub(crate) fn quick_bits() -> u32 {
    macroquad::rand::rand()
}

} // verus!
