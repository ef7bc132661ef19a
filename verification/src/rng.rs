//! Draws from the process-wide random generator. Randomness carries no
//! seeding contract, so nothing is assumed of the values beyond their range.

use vstd::prelude::*;

verus! {

/// Relies on rand::Rng::gen_range over the range 0..n: returns a value in
/// [0, n); it panics on an empty range, so n must be positive.
#[verifier::external_body]
pub(crate) fn random_below(n: usize) -> (r: usize)
    requires
        n > 0,
    ensures
        r < n,
{
    rand::Rng::gen_range(&mut rand::thread_rng(), 0..n)
}

/// Relies on rand::random: a uniformly drawn 32-bit value; nothing is assumed
/// of it.
#[verifier::external_body]
pub(crate) fn random_u32() -> (r: u32) {
    rand::random::<u32>()
}

/// Relies on rand::random: a uniformly drawn 16-bit value, widened to 32 bits.
#[verifier::external_body]
pub(crate) fn random_u16_as_u32() -> (r: u32)
    ensures
        r < 0x10000,
{
    rand::random::<u16>() as u32
}

} // verus!
