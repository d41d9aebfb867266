//! The engine's source of randomness.
use vstd::prelude::*;

verus! {

/// fastrand's generator, carried through as an opaque value.
#[verifier::external_type_specification]
#[verifier::external_body]
pub struct ExRng(fastrand::Rng);

/// Relies on fastrand::Rng::new: a generator seeded from the thread's own;
/// nothing is promised of its numbers.
pub assume_specification[ fastrand::Rng::new ]() -> fastrand::Rng;

/// Relies on fastrand::Rng::shuffle: it only swaps elements, so the items stay the same.
#[verifier::external_body]
pub(crate) fn shuffle<T>(rng: &fastrand::Rng, v: &mut Vec<T>)
    ensures
        final(v)@.to_multiset() == old(v)@.to_multiset(),
{
    rng.shuffle(v.as_mut_slice())
}

/// Relies on fastrand::Rng::u8: a number drawn from `0..100`.
#[verifier::external_body]
pub(crate) fn roll_percent(rng: &fastrand::Rng) -> (r: u8)
    ensures
        r < 100,
{
    rng.u8(0..100)
}

} // verus!
