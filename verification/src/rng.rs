use vstd::prelude::*;
use rltk::RandomNumberGenerator;

verus! {

/// The random number generator of `rltk`; its state is opaque here.
#[verifier::external_type_specification]
#[verifier::external_body]
pub struct ExRandomNumberGenerator(RandomNumberGenerator);

/// Calls `rltk::RandomNumberGenerator::new`, which seeds a generator from the
/// operating system's entropy (or the clock). Nothing is stated of the result.
#[verifier::external_body]
pub(crate) fn rng_new() -> (rng: RandomNumberGenerator) {
    RandomNumberGenerator::new()
}

/// Calls `RandomNumberGenerator::range` at `i32`. Its documentation (and the
/// `gen_range(min..max)` it forwards to) give a value that includes `min` and
/// excludes `max`; an empty range panics, so `min < max` is required. Which value
/// of the range comes back is left open.
#[verifier::external_body]
pub(crate) fn rng_range(rng: &mut RandomNumberGenerator, min: i32, max: i32) -> (r: i32)
    requires
        min < max,
    ensures
        min <= r < max,
{
    rng.range(min, max)
}

/// Calls `RandomNumberGenerator::roll_dice(n, die_type)`, the sum of `n` draws of
/// `range(1, die_type + 1)`. The source sums in `i32`; the `requires` rules out an
/// empty die range and any overflow. Only the bounds of the sum are stated; which
/// value comes back is left open.
#[verifier::external_body]
pub(crate) fn rng_roll_dice(rng: &mut RandomNumberGenerator, n: i32, die_type: i32) -> (r: i32)
    requires
        n >= 1,
        1 <= die_type < i32::MAX,
        n * die_type <= i32::MAX,
    ensures
        n <= r <= n * die_type,
{
    rng.roll_dice(n, die_type)
}

} // verus!
