use vstd::prelude::*;

verus! {

/// Declares rand's `StdRng` so the trainer can carry a random source through
/// its signatures; the generator's state is opaque to verified code.
#[verifier::external_type_specification]
#[verifier::external_body]
pub struct ExStdRng(rand::rngs::StdRng);

/// Relies on rand's `RngCore::next_u64` for `StdRng`: advances the generator
/// and returns its next word. Nothing is promised of the value; every caller
/// must be correct whatever word comes back.
#[verifier::external_body]
pub(crate) fn draw_u64(rng: &mut rand::rngs::StdRng) -> u64 {
    rand::RngCore::next_u64(rng)
}

} // verus!
