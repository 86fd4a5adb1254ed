//! Random numbers.

use vstd::prelude::*;

verus! {

/// `rand::random::<u64>`: any number.
#[verifier::external_body]
pub(crate) fn random_u64() -> (r: u64) {
    rand::random::<u64>()
}

} // verus!
