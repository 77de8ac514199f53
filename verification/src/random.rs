//! The source of random numbers.

use vstd::prelude::*;

verus! {

/// A number drawn from `low..high` by `rand::random_range`, which samples
/// the thread-local generator. The contract claims only that the number lies
/// in the range; nothing is said of which number comes. The range must not
/// be empty, for `random_range` panics on an empty one.
#[verifier::external_body]
pub(crate) fn random_range(low: usize, high: usize) -> (n: usize)
    requires
        low < high,
    ensures
        low <= n < high,
{
    rand::random_range(low..high)
}

} // verus!
