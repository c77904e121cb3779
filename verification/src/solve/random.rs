//! The seeded random-number source the search draws its choices from.

use rand::rngs::StdRng;
use rand::{RngExt, SeedableRng};
use vstd::prelude::*;

verus! {

/// rand's standard generator, carried through the search as an opaque value.
#[verifier::external_type_specification]
#[verifier::external_body]
pub struct ExStdRng(StdRng);

/// Calls `StdRng::seed_from_u64`: a generator whose stream is fixed by `seed`.
/// Nothing is claimed about the values it will produce.
#[verifier::external_body]
pub(crate) fn seeded_rng(seed: u64) -> StdRng {
    StdRng::seed_from_u64(seed)
}

/// Calls `rng.random_range(lo..hi)`, which rand documents to return a value in the
/// half-open range `lo..hi` (and to panic on an empty range, which `requires` rules
/// out). Which value comes back is not stated.
#[verifier::external_body]
pub(crate) fn random_index(rng: &mut StdRng, lo: usize, hi: usize) -> (r: usize)
    requires
        lo < hi,
    ensures
        lo <= r < hi,
{
    rng.random_range(lo..hi)
}

} // verus!
