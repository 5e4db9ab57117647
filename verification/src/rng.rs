//! Random draws for the probabilistic filters. Nothing can be promised of
//! which value comes back, so callers state what holds of every outcome.
use rand::Rng;
use vstd::prelude::*;

verus! {

/// Relies on rand::Rng::gen_range on the thread-local generator: a draw
/// from the half-open range `[lo, hi)`, which must not be empty.
#[verifier::external_body]
pub(crate) fn rand_range_u32(lo: u32, hi: u32) -> (r: u32)
    requires
        lo < hi,
    ensures
        lo <= r < hi,
{
    rand::thread_rng().gen_range(lo..hi)
}

/// Relies on rand::Rng::gen::<bool>: a coin flip; either outcome may come.
#[verifier::external_body]
pub(crate) fn rand_bool() -> (r: bool) {
    rand::thread_rng().gen()
}

} // verus!
