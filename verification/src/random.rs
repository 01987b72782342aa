//! The random source of the scene: the generator is the caller's, the library
//! draws whole numbers from it.

use vstd::prelude::*;

verus! {

/// Declaration of the generator from which the library draws.
#[verifier::external_type_specification]
#[verifier::external_body]
pub struct ExXoshiro256PlusPlus(rand_xoshiro::Xoshiro256PlusPlus);

/// Draws a whole number below `bound`. Calls `rand::Rng::gen_range` with the
/// range `0..bound`, which panics on an empty range and else returns a value
/// of the range.
#[verifier::external_body]
pub(crate) fn random_below(rng: &mut rand_xoshiro::Xoshiro256PlusPlus, bound: usize) -> (n: usize)
    requires
        bound > 0,
    ensures
        n < bound,
{
    rand::Rng::gen_range(rng, 0..bound)
}

} // verus!
