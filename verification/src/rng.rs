//! The one call out of the library: drawing a uniformly random index.

use vstd::prelude::*;

verus! {

/// Relies on rand::random_range: a uniform draw from `0..n`, which always
/// lies below `n`. The range must be non-empty, since rand panics on an
/// empty one.
#[verifier::external_body]
pub(crate) fn gen_index(n: usize) -> (r: usize)
    requires
        n >= 1,
    ensures
        r < n,
{
    rand::random_range(0..n)
}

} // verus!
