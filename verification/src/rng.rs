//! The single boundary to the random-number generator, used by the
//! random-byte instruction.

use vstd::prelude::*;

verus! {

/// Relies on rand::random::<u8>: draws a byte from the thread-local
/// generator, uniformly distributed.  Nothing can be promised of the value,
/// so the caller states what holds of every outcome.
#[verifier::external_body]
pub(crate) fn random_byte() -> u8 {
    rand::random::<u8>()
}

} // verus!
