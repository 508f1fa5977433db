//! The per-thread pseudo-random stream that picks where scans start.

use rand::distributions::Distribution;
use vstd::prelude::*;

verus! {

#[verifier::external_type_specification]
#[verifier::external_body]
pub struct ExSmallRng(rand::rngs::SmallRng);

/// Relies on `rand::SeedableRng::seed_from_u64` for `SmallRng`: a generator
/// whose stream is fixed by `seed`.
#[verifier::external_body]
pub(crate) fn seeded_rng(seed: u64) -> rand::rngs::SmallRng {
    <rand::rngs::SmallRng as rand::SeedableRng>::seed_from_u64(seed)
}

/// Relies on `rand::distributions::Uniform::new(0, n)` and `sample`: a value
/// drawn from `[0, n)`. `Uniform::new` panics on an empty range, which
/// `requires` leaves out.
#[verifier::external_body]
pub(crate) fn random_index(rng: &mut rand::rngs::SmallRng, n: usize) -> (r: usize)
    requires
        n > 0,
    ensures
        r < n,
{
    rand::distributions::Uniform::new(0, n).sample(rng)
}

} // verus!
