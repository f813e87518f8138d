//! The one place the library draws randomness.

use vstd::prelude::*;

verus! {

/// Relies on `rand::random`: an arbitrarily drawn `u32`. Nothing is promised
/// of the value; every caller must be correct for every outcome.
#[verifier::external_body]
pub(crate) fn draw_u32() -> u32 {
    rand::random::<u32>()
}

} // verus!
