use vstd::prelude::*;
use rand::Rng;

verus! {

/// Relies on rand::random: a draw from the standard distribution of `T`;
/// nothing can be promised of the outcome.
pub assume_specification<T>[ rand::random::<T> ]() -> (r: T)
    where
        rand::distributions::Standard: rand::distributions::Distribution<T>,
;

/// Relies on rand::thread_rng and rand::Rng::gen_range over the inclusive
/// range `-5 ..= 5`: the draw is documented to lie within the sampled range.
#[verifier::external_body]
pub(crate) fn delta() -> (d: i8)
    ensures
        -5 <= d <= 5,
{
    rand::thread_rng().gen_range(-5..=5)
}

/// A draw with even chance.
pub(crate) fn coin() -> bool {
    rand::random()
}

/// A uniformly random byte.
pub(crate) fn byte() -> u8 {
    rand::random()
}

} // verus!
