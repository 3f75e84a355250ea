//! Trusted access to the process-wide pseudo-random source.

use rand::Rng;
use vstd::prelude::*;

verus! {

/// Relies on rand::random::<bool>: an unbiased draw from the process-wide
/// generator; nothing is promised of the value.
#[verifier::external_body]
pub(crate) fn random_bool() -> bool {
    rand::random::<bool>()
}

/// Relies on rand::Rng::gen_range: it returns a value drawn uniformly from
/// the given range, and panics only on an empty range, which the
/// precondition rules out.
#[verifier::external_body]
pub(crate) fn random_below(bound: u32) -> (r: u32)
    requires
        bound >= 1,
    ensures
        r < bound,
{
    rand::thread_rng().gen_range(0..bound)
}

} // verus!
