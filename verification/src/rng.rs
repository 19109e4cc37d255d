//! The register's one source of randomness: a Bernoulli draw.

use vstd::prelude::*;

verus! {

/// Relies on `rand::random_ratio`: the result is true with probability
/// `num / den`, guaranteed false when `num == 0` and guaranteed true when
/// `num == den` (both stated in its documentation and visible in its
/// source).  The call panics when `den == 0` or `num > den`, which the
/// precondition excludes.
#[verifier::external_body]
pub(crate) fn draw_ratio(num: u32, den: u32) -> (r: bool)
    requires
        0 < den,
        num <= den,
    ensures
        num == 0 ==> !r,
        num == den ==> r,
{
    rand::random_ratio(num, den)
}

} // verus!
