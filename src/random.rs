//! A source of random percentages, for combat rules that roll for hits.
//! The generator is an owned value: callers that share it hold it behind a
//! lock of their own, so no two draws interleave.
use vstd::prelude::*;
use nanorand::{Rng, WyRand};

verus! {

#[verifier::external_type_specification]
#[verifier::external_body]
pub struct ExWyRand(WyRand);

/// Relies on nanorand's `WyRand::new`: a generator seeded from the system's
/// entropy. Nothing is known of its seed.
pub assume_specification[ WyRand::new ]() -> WyRand;

/// Relies on nanorand's `Rng::generate_range` on `u8` over `lo..hi`: for
/// `lo < hi` the value drawn lies in that range.
#[verifier::external_body]
fn generate_range(rng: &mut WyRand, lo: u8, hi: u8) -> (r: u8)
    requires
        lo < hi,
    ensures
        lo <= r < hi,
{
    rng.generate_range(lo..hi)
}

/// The random generator behind `percent`.
pub struct RandomSource {
    rng: WyRand,
}

impl RandomSource {
    /// A generator seeded from the system's entropy.
    pub fn new() -> (r: RandomSource) {
        RandomSource { rng: WyRand::new() }
    }
}

/// A percentage drawn from `source`: a whole number from 1 to 100.
pub fn percent(source: &mut RandomSource) -> (r: u8)
    ensures
        1 <= r <= 100,
{
    generate_range(&mut source.rng, 1, 101)
}

} // verus!
