//! The one source of randomness of the walk.

use vstd::prelude::*;
use rand::Rng;

verus! {

/// Draws an index below `n` from the thread-local generator of the `rand`
/// crate: `rand::thread_rng().gen_range(0..n)`.
///
/// Trusted, not proved: `gen_range` returns a value of the half-open range it
/// is given, and it panics on an empty range, which `n > 0` rules out. Which
/// value comes back is left open, so two draws with the same `n` may differ.
/// The generator seeds itself from the operating system on first use and
/// panics if that source fails.
#[verifier::external_body]
pub(crate) fn random_below(n: usize) -> (r: usize)
    requires
        n > 0,
    ensures
        r < n,
{
    rand::thread_rng().gen_range(0..n)
}

} // verus!
