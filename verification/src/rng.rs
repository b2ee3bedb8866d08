//! The one point where the simulation draws randomness.

use vstd::prelude::*;

verus! {

/// Relies on rand::random: draws a fresh value from the thread-local
/// generator. Nothing can be promised of a random value, so the contract
/// is empty; callers must state what holds of every outcome.
pub assume_specification<T>[ rand::random::<T> ]() -> (r: T)
    where
        rand::distributions::Standard: rand::distributions::Distribution<T>,
;

} // verus!
