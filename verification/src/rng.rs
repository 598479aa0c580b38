//! Trusted boundary around the random number generator.
//!
//! Every draw the library makes goes through one of the wrappers below;
//! all decisions taken on the drawn values are verified code elsewhere.

use vstd::prelude::*;

verus! {

/// Declares `rand::rngs::StdRng` so that a generator value can be carried
/// through verified code. The value is opaque: nothing is known of it.
#[verifier::external_type_specification]
#[verifier::external_body]
pub struct ExStdRng(rand::rngs::StdRng);

/// Relies on `rand::SeedableRng::seed_from_u64`: builds a generator from a
/// seed. Nothing is promised of the state itself.
#[verifier::external_body]
pub(crate) fn rng_from_seed(seed: u64) -> rand::rngs::StdRng {
    <rand::rngs::StdRng as rand::SeedableRng>::seed_from_u64(seed)
}

/// Relies on `rand::Rng::gen_range` over `0..n`: returns a value of the
/// range, and panics only on an empty range, which `n >= 1` rules out.
#[verifier::external_body]
pub(crate) fn rng_below(rng: &mut rand::rngs::StdRng, n: usize) -> (r: usize)
    requires
        n >= 1,
    ensures
        r < n,
{
    rand::Rng::gen_range(rng, 0..n)
}

/// Relies on `rand::Rng::gen_range` over `lo..=hi`: returns a value of the
/// range, and panics only on an empty range, which `lo <= hi` rules out.
#[verifier::external_body]
pub(crate) fn rng_range_i64(rng: &mut rand::rngs::StdRng, lo: i64, hi: i64) -> (r: i64)
    requires
        lo <= hi,
    ensures
        lo <= r <= hi,
{
    rand::Rng::gen_range(rng, lo..=hi)
}

} // verus!
