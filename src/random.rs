//! The seeded pseudo-random source threaded through the renderer.
use vstd::prelude::*;
use rand::Rng;

verus! {

/// rand's standard seedable generator; the renderer creates it from a seed so
/// that a render can be repeated exactly.
#[verifier::external_type_specification]
#[verifier::external_body]
pub struct ExStdRng(rand::rngs::StdRng);

/// Relies on rand::Rng::gen_range over `0..3`: a uniform draw that lies in
/// the half-open range (it panics only on an empty range).
#[verifier::external_body]
pub(crate) fn random_axis(rng: &mut rand::rngs::StdRng) -> (axis: usize)
    ensures
        axis < 3,
{
    rng.gen_range(0..3)
}

} // verus!
