//! Randomness for scrambling, drawn through the `rand` crate.

use vstd::prelude::*;

verus! {

/// Relies on `rand::Rng::gen_range` over the range `0..n`: it returns a
/// uniformly drawn value of that range, and panics only when the range is
/// empty, which the precondition excludes. Nothing more is assumed of the
/// draw: any value below `n` may come back.
#[verifier::external_body]
pub(crate) fn random_below(n: usize) -> (r: usize)
    requires
        1 <= n,
    ensures
        r < n,
{
    rand::Rng::gen_range(&mut rand::thread_rng(), 0..n)
}

} // verus!
