use vstd::prelude::*;
use rand::Rng;
use rand::rngs::ThreadRng;

verus! {

/// Makes `rand::rngs::ThreadRng` known as a type whose inside is not looked
/// at.
#[verifier::external_type_specification]
#[verifier::external_body]
pub struct ExThreadRng(ThreadRng);

/// Calls `rand::Rng::gen_range(0, bound)`. Nothing is proved of that call;
/// what is taken on trust is that the number it returns lies in `0..bound`,
/// as the method documents for a non-empty range. Which number comes back is
/// left open. The method panics on an empty range, which `requires` excludes.
/// It draws from the source until a sample falls into its acceptance zone;
/// that a source lets it return is taken on trust as well.
#[verifier::external_body]
pub(crate) fn random_below<R: Rng>(rng: &mut R, bound: usize) -> (pick: usize)
    requires
        bound > 0,
    ensures
        pick < bound,
{
    rng.gen_range(0, bound)
}

/// Calls `rand::thread_rng()`, which hands out the calling thread's generator.
/// Nothing is claimed of it.
#[verifier::external_body]
pub(crate) fn system_rng() -> ThreadRng {
    rand::thread_rng()
}

} // verus!
