//! Trusted draws from the process-wide random number generator.
//!
//! Each function makes one call into the `rand` crate; the contracts say
//! only what holds of every possible outcome.

use vstd::prelude::*;
use rand::Rng;

verus! {

/// Relies on `rand::rng()` with `Rng::random_range(0..n)`: the draw lies
/// below `n`; the range is nonempty so the call does not panic.
#[verifier::external_body]
pub(crate) fn random_index_below(n: usize) -> (r: usize)
    requires
        n >= 1,
    ensures
        r < n,
{
    rand::rng().random_range(0..n)
}

/// Relies on `rand::rng()` with `Rng::random_range(0..n)`: the draw lies
/// below `n`; the range is nonempty so the call does not panic.
#[verifier::external_body]
pub(crate) fn random_u64_below(n: u64) -> (r: u64)
    requires
        n >= 1,
    ensures
        r < n,
{
    rand::rng().random_range(0..n)
}

/// Relies on `rand::rng()` with `Rng::random_range` over an inclusive
/// range: a fixed-point draw from `[0, 1]`.
#[verifier::external_body]
pub(crate) fn random_unit_fixed() -> (r: u64)
    ensures
        r <= crate::fixed::FIXED_ONE,
{
    rand::rng().random_range(0..=crate::fixed::FIXED_ONE)
}

/// Relies on `rand::rng()` with `Rng::random_range(0..10)`: the draw lies
/// below ten; the range is nonempty so the call does not panic.
#[verifier::external_body]
pub(crate) fn random_decile() -> (r: u32)
    ensures
        r < 10,
{
    rand::rng().random_range(0u32..10)
}

} // verus!
