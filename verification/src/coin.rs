//! The coin of the exact solver: draws from a generator of the `rand` crate.
//! What stands here is taken on trust from that crate.

use rand::rngs::StdRng;
use vstd::prelude::*;

verus! {

/// The generator of `rand` that the coin of the third slot is drawn from.
/// Nothing is known of what it holds.
#[verifier::external_type_specification]
#[verifier::external_body]
pub struct ExStdRng(StdRng);

/// `Rng::random_ratio` on a `StdRng`: answers true with probability
/// `numerator / denominator` and moves the generator on. It panics on a
/// zero denominator and on a numerator above the denominator, which are
/// left out; of the answer nothing is claimed.
#[verifier::external_body]
pub(crate) fn toss(generator: &mut StdRng, numerator: u32, denominator: u32) -> (hit: bool)
    requires
        denominator != 0,
        numerator <= denominator,
{
    rand::Rng::random_ratio(generator, numerator, denominator)
}

/// `SeedableRng::try_from_os_rng` for `StdRng`: a generator seeded by the
/// operating system, or nothing where the operating system has no
/// randomness to give. Nothing is claimed of which it is, nor of the
/// generator.
#[verifier::external_body]
pub(crate) fn os_generator() -> (generator: Option<StdRng>) {
    let made: Result<StdRng, _> = rand::SeedableRng::try_from_os_rng();
    match made {
        Ok(generator) => Some(generator),
        Err(_) => None,
    }
}

/// `SeedableRng::seed_from_u64` for `StdRng`: the generator that `seed`
/// stands for. Nothing is claimed of it.
#[verifier::external_body]
pub(crate) fn seeded_generator(seed: u64) -> (generator: StdRng) {
    rand::SeedableRng::seed_from_u64(seed)
}

} // verus!
