//! The library's only source of randomness: the thread-local generator of the
//! `rand` crate, reached through the one trusted draw below. Its contract is
//! believed, not proved. The generator seeds itself from the operating
//! system on first use and stops the program if that source is unavailable.

use rand::Rng;
use vstd::prelude::*;

verus! {

/// Draws an integer uniformly from `low..high`.
///
/// Trusted: the body calls `rand::Rng::gen_range` with the half-open range
/// `low..high` on `rand::thread_rng()`. That call panics on an empty range,
/// which the precondition rules out, and otherwise returns a value that is at
/// least `low` and strictly below `high`. Nothing is claimed about which
/// value comes back, so two calls with the same bounds may differ.
#[verifier::external_body]
pub(crate) fn random_in(low: usize, high: usize) -> (n: usize)
    requires
        low < high,
    ensures
        low <= n < high,
{
    rand::thread_rng().gen_range(low..high)
}

} // verus!
