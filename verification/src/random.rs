use vstd::prelude::*;
use rand::Rng;

verus! {

/// The handle to the thread-local random generator of `rand`.
#[verifier::external_type_specification]
#[verifier::external_body]
pub struct ExThreadRng(rand::rngs::ThreadRng);

/// Calls `rand::thread_rng`, which hands out the thread-local generator.
/// Nothing is claimed of the handle.
#[verifier::external_body]
pub(crate) fn get_rand() -> rand::rngs::ThreadRng {
    rand::thread_rng()
}

/// Calls `Rng::gen::<bool>` on the generator. The result is random, so
/// nothing is claimed of it; the generator's new state is not stated either.
#[verifier::external_body]
pub(crate) fn random_bool(rng: &mut rand::rngs::ThreadRng) -> bool {
    rng.gen::<bool>()
}

} // verus!
