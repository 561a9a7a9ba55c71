use vstd::prelude::*;
use rand::Rng;

verus! {

/// Relies on `rand::Rng::random_range` over an inclusive integer range: the
/// sampled value always lies within the requested (non-empty) range.  Nothing
/// more is assumed of it — two calls with equal arguments may differ.
#[verifier::external_body]
pub fn random_in_range(lo: i64, hi: i64) -> (r: i64)
    requires
        lo <= hi,
    ensures
        lo <= r <= hi,
{
    rand::rng().random_range(lo..=hi)
}

} // verus!
