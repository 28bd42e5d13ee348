//! The random source threaded through every stochastic operation.
use rand::Rng;
use vstd::prelude::*;

verus! {

#[verifier::external_type_specification]
#[verifier::external_body]
pub struct ExStdRng(rand::rngs::StdRng);

/// Relies on rand's `Rng::gen_range` over `0..n`: it returns a value of the
/// range, and panics only on an empty range.
#[verifier::external_body]
pub fn draw_below(rng: &mut rand::rngs::StdRng, n: u64) -> (r: u64)
    requires
        n > 0,
    ensures
        r < n,
{
    rng.gen_range(0..n)
}

/// Relies on rand's `Rng::gen::<bool>`: a fair coin flip.
#[verifier::external_body]
pub fn draw_bool(rng: &mut rand::rngs::StdRng) -> (r: bool) {
    rng.gen::<bool>()
}

/// Relies on rand's `Rng::gen_ratio`: true with probability
/// `numerator / denominator`; always false for a zero numerator and always
/// true when both are equal. It panics when `numerator > denominator` or the
/// denominator is zero.
#[verifier::external_body]
pub fn draw_ratio(rng: &mut rand::rngs::StdRng, numerator: u32, denominator: u32) -> (r: bool)
    requires
        0 < denominator,
        numerator <= denominator,
    ensures
        numerator == 0 ==> !r,
        numerator == denominator ==> r,
{
    rng.gen_ratio(numerator, denominator)
}

} // verus!
