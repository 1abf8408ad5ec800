//! Seeded random source for the map generator, backed by rltk.
//!
//! The generator's contracts promise only the range of each draw; every
//! caller is verified for every outcome within that range.

use vstd::prelude::*;

verus! {

#[verifier::external_type_specification]
#[verifier::external_body]
pub struct ExRandomNumberGenerator(rltk::RandomNumberGenerator);

/// Relies on rltk::RandomNumberGenerator::seeded: builds a generator from a
/// fixed seed, so runs with equal seeds draw equal values.
#[verifier::external_body]
pub fn seeded(seed: u64) -> rltk::RandomNumberGenerator {
    rltk::RandomNumberGenerator::seeded(seed)
}

/// Relies on rltk::RandomNumberGenerator::range: the draw is at least `min`
/// and strictly below `max`.
#[verifier::external_body]
pub fn range(rng: &mut rltk::RandomNumberGenerator, min: i32, max: i32) -> (r: i32)
    requires
        min < max,
    ensures
        min <= r < max,
{
    rng.range(min, max)
}

/// Relies on rltk::RandomNumberGenerator::roll_dice: the sum of `n` dice with
/// `die_type` sides lies between `n` and `n * die_type`.
#[verifier::external_body]
pub fn roll_dice(rng: &mut rltk::RandomNumberGenerator, n: i32, die_type: i32) -> (r: i32)
    requires
        1 <= n,
        1 <= die_type < 0x7fff_ffff,
        n * die_type < 0x8000_0000,
    ensures
        n <= r <= n * die_type,
{
    rng.roll_dice(n, die_type)
}

} // verus!
