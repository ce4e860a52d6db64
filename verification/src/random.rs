//! Random draws, taken from the `rand` crate's generator of the calling thread.

use rand::Rng;
use vstd::prelude::*;

verus! {

/// Calls `rand::Rng::random_ratio` on `rand::rng()`: a `bool` that is true
/// with probability `numerator / denominator`. Nothing is known of the
/// result except at the two ends: a ratio of zero never gives `true`, a
/// ratio of one always does. The outside function panics on a zero
/// denominator and on a ratio above one; the precondition leaves both out.
#[verifier::external_body]
pub(crate) fn random_ratio(numerator: u32, denominator: u32) -> (r: bool)
    requires
        0 < denominator,
        numerator <= denominator,
    ensures
        numerator == 0 ==> !r,
        numerator == denominator ==> r,
{
    rand::rng().random_ratio(numerator, denominator)
}

/// Calls `rand::Rng::random_range` on `rand::rng()` with the inclusive range
/// `low..=high`: some value of that range. The outside function panics on an
/// empty range; the precondition leaves it out.
#[verifier::external_body]
pub(crate) fn random_range(low: u8, high: u8) -> (r: u8)
    requires
        low <= high,
    ensures
        low <= r <= high,
{
    rand::rng().random_range(low..=high)
}

} // verus!
