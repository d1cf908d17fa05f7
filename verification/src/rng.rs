//! The one source of randomness: spawn columns and food cells.

use vstd::prelude::*;

verus! {

/// Relies on rand::random_range over `0..n`: the sample lies in the range,
/// which is non-empty by the precondition.
#[verifier::external_body]
pub(crate) fn random_below(n: u32) -> (r: u32)
    requires
        n >= 1,
    ensures
        r < n,
{
    rand::random_range(0..n)
}

} // verus!
