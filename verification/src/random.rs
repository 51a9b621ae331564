//! The random source. Every draw goes through [`range`] or [`roll_dice`],
//! the only places where an outcome is not determined by the caller's
//! arguments; what is stated of a draw is the span it falls in.

use vstd::prelude::*;
use bracket_lib::prelude::RandomNumberGenerator;

verus! {

/// `bracket_lib`'s xorshift generator, carried as an opaque value.
#[verifier::external_type_specification]
#[verifier::external_body]
pub struct ExRandomNumberGenerator(RandomNumberGenerator);

/// Calls `RandomNumberGenerator::seeded`. Nothing is claimed of the
/// generator that comes back.
#[verifier::external_body]
pub(crate) fn seeded(seed: u64) -> RandomNumberGenerator {
    RandomNumberGenerator::seeded(seed)
}

/// Calls `RandomNumberGenerator::new`, which seeds from the operating
/// system. Nothing is claimed of the generator that comes back.
#[verifier::external_body]
pub(crate) fn from_entropy() -> RandomNumberGenerator {
    RandomNumberGenerator::new()
}

/// Calls `RandomNumberGenerator::range` on `i32` bounds. The draw is at
/// least `min` and strictly below `max`; an empty range makes the outside
/// call panic, so it is excluded.
#[verifier::external_body]
pub(crate) fn range(rng: &mut RandomNumberGenerator, min: i32, max: i32) -> (r: i32)
    requires
        min < max,
    ensures
        min <= r < max,
{
    rng.range(min, max)
}

/// Calls `RandomNumberGenerator::roll_dice`, which sums `n` draws from
/// `1 ..= die_type`. The sum is at least `n` and at most `n * die_type`;
/// without dice it is zero. A die without faces makes the outside call
/// panic, as does a sum beyond `i32`, so both are excluded.
#[verifier::external_body]
pub(crate) fn roll_dice(rng: &mut RandomNumberGenerator, n: i32, die_type: i32) -> (sum: i32)
    requires
        n > 0 ==> 1 <= die_type < i32::MAX && n * die_type <= i32::MAX,
    ensures
        n <= 0 ==> sum == 0,
        n > 0 ==> n <= sum <= n * die_type,
{
    rng.roll_dice(n, die_type)
}

/// A uniformly drawn index into a collection of `len` items.
pub fn pick_index(rng: &mut RandomNumberGenerator, len: usize) -> (i: usize)
    requires
        0 < len <= i32::MAX,
    ensures
        i < len,
{
    let drawn: i32 = range(rng, 0, len as i32);
    drawn as usize
}

} // verus!
