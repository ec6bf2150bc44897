//! Randomness: the source that the generator draws from, the pick of a
//! follower, and fresh identifiers. Nothing here is proved; each contract
//! says only what holds of every outcome.

use rand::seq::SliceRandom;
use vstd::prelude::*;

verus! {

/// `rand::rngs::ThreadRng`, a handle to the generator of the calling
/// thread. Nothing of its state is visible here.
#[verifier::external_type_specification]
#[verifier::external_body]
pub struct ExThreadRng(rand::rngs::ThreadRng);

/// `rand::thread_rng` hands out the generator of the calling thread, seeded
/// by the system, and gives up only where the system has no randomness to
/// seed it with. Nothing is claimed of the numbers it will give.
pub assume_specification[ rand::thread_rng ]() -> rand::rngs::ThreadRng
;

/// `SliceRandom::choose` of rand picks one element of a slice with `rng`:
/// `None` if and only if the slice is empty, else one of its elements. Which
/// one is left open.
#[verifier::external_body]
pub(crate) fn choose_word<'a>(
    items: &'a Vec<String>,
    rng: &mut rand::rngs::ThreadRng,
) -> (picked: Option<&'a String>)
    ensures
        match picked {
            Some(word) => exists|i: int| 0 <= i < items@.len() && items@[i]@ == word@,
            None => items@.len() == 0,
        },
{
    items.choose(rng)
}

/// `uuid::Uuid::new_v4` draws a random identifier from the system's
/// generator, and its `Display` writes it in hyphenated form: 32 hexadecimal
/// digits and 4 hyphens. Which identifier comes is left open.
#[verifier::external_body]
pub(crate) fn fresh_id() -> (id: String)
    ensures
        id@.len() == 36,
{
    uuid::Uuid::new_v4().to_string()
}

} // verus!
