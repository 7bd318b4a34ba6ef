//! Fresh draws from the operating system's randomness, by way of the `rand` crate.

use vstd::prelude::*;

verus! {

/// One draw from `rand`'s thread-local generator: `rand::thread_rng()`, asked
/// through `Rng::gen` for a `u32`, which hands on the generator's next 32-bit
/// word.
///
/// This is the one place where the library's result is not proved: the body is
/// taken on trust. Nothing is claimed of the word that comes back, and two
/// calls may return different words. `rand` stops the program when the
/// generator cannot be seeded from the operating system.
#[verifier::external_body]
pub(crate) fn random_word() -> (word: u32) {
    rand::Rng::gen::<u32>(&mut rand::thread_rng())
}

/// The draws for one attempt at a solution: one fresh word for each of the 81 cells.
pub(crate) fn fresh_attempt_draws() -> (draws: [u32; 81]) {
    let mut draws = [0u32; 81];
    let mut k: usize = 0;
    while k < 81
        invariant
            k <= 81,
        decreases 81 - k,
    {
        draws[k] = random_word();
        k += 1;
    }
    draws
}

/// `count` fresh draws.
pub(crate) fn fresh_draws(count: usize) -> (draws: Vec<u32>)
    ensures
        draws@.len() == count,
{
    let mut draws: Vec<u32> = Vec::new();
    while draws.len() < count
        invariant
            draws@.len() <= count,
        decreases count - draws@.len(),
    {
        draws.push(random_word());
    }
    draws
}

} // verus!
