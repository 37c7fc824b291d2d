//! The source of the random outcomes of measurements.

use vstd::prelude::*;

verus! {

/// A seedable generator of the `rand` crate.  Nothing is known of its state.
#[verifier::external_type_specification]
#[verifier::external_body]
pub struct ExStdRng(rand::rngs::StdRng);

/// Whether a draw that is true with probability `numerator / denominator`
/// may come out as `outcome`: a certain event happens, an impossible one
/// does not.
pub open spec fn draw_allowed(numerator: int, denominator: int, outcome: bool) -> bool {
    &&& numerator == denominator ==> outcome
    &&& numerator == 0 ==> !outcome
}

/// Calls `rand::Rng::random_ratio`, which returns true with probability
/// `numerator / denominator` and panics where the denominator is zero or
/// less than the numerator.  Its documentation guarantees the two cases
/// that the contract states: true where the two are equal, false where the
/// numerator is zero.  Nothing else is claimed of the outcome.
#[verifier::external_body]
pub(crate) fn draw(rng: &mut rand::rngs::StdRng, numerator: u32, denominator: u32) -> (outcome:
    bool)
    requires
        denominator > 0,
        numerator <= denominator,
    ensures
        draw_allowed(numerator as int, denominator as int, outcome),
{
    rand::Rng::random_ratio(rng, numerator, denominator)
}

} // verus!
