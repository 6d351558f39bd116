//! The random source that the agents draw from.
use rand::seq::SliceRandom;
use vstd::prelude::*;

verus! {

#[verifier::external_type_specification]
#[verifier::external_body]
pub struct ExThreadRng(rand::rngs::ThreadRng);

/// Relies on rand::thread_rng: a handle to the lazily seeded thread-local generator. Nothing
/// is promised of the values it will produce.
pub assume_specification[ rand::thread_rng ]() -> rand::rngs::ThreadRng;

/// Relies on rand's `SliceRandom::choose` for slices: `None` exactly when the slice is empty,
/// otherwise a copy of one of its elements.
#[verifier::external_body]
pub(crate) fn choose_from<T: Copy>(items: &[T], rng: &mut rand::rngs::ThreadRng) -> (r: Option<T>)
    ensures
        (items@.len() == 0) == (r is None),
        r matches Some(x) ==> items@.contains(x),
{
    items.choose(rng).copied()
}

} // verus!
