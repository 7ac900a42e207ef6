//! Source of randomness for the shuffle.

use vstd::prelude::*;

verus! {

/// Relies on rand::random: draws one machine-word integer from the
/// thread-local generator. The value depends on the generator's state,
/// so nothing is promised of it.
#[verifier::external_body]
pub(crate) fn random_usize() -> usize {
    rand::random::<usize>()
}

} // verus!
