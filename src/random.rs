use rand::rngs::StdRng;
use rand::seq::SliceRandom;
use rand::Rng;
use vstd::prelude::*;

verus! {

/// The seedable generator that every random choice of the engine draws from.
#[verifier::external_type_specification]
#[verifier::external_body]
pub struct ExStdRng(rand::rngs::StdRng);

/// Relies on rand's `SliceRandom::choose`: on a non-empty slice it returns
/// `Some` of one of the slice's elements.
#[verifier::external_body]
pub(crate) fn choose_one<T: Copy>(items: &Vec<T>, rng: &mut StdRng) -> (r: T)
    requires
        items@.len() > 0,
    ensures
        items@.contains(r),
{
    *items.as_slice().choose(rng).unwrap()
}

/// Relies on rand's `Rng::gen_ratio`: `true` with chance `numerator / denominator`,
/// always when the two are equal and never when `numerator` is 0. It panics
/// when `denominator` is 0 or `numerator > denominator`.
#[verifier::external_body]
pub(crate) fn chance(rng: &mut StdRng, numerator: u32, denominator: u32) -> (r: bool)
    requires
        0 < denominator,
        numerator <= denominator,
    ensures
        numerator == 0 ==> !r,
        numerator == denominator ==> r,
{
    rng.gen_ratio(numerator, denominator)
}

} // verus!
