//! Random numbers.

use vstd::prelude::*;

verus! {

/// `rand::random` at `u128`: any number may come.
#[verifier::external_body]
pub(crate) fn random_mask() -> u128 {
    rand::random::<u128>()
}

/// `rand::random_range` over `0..n`: some number of the range, which must not be empty.
#[verifier::external_body]
pub(crate) fn random_below(n: usize) -> (m: usize)
    requires
        n > 0,
    ensures
        m < n,
{
    rand::random_range(0..n)
}

} // verus!
