//! The library's source of randomness: the thread-local generator of the
//! `rand` crate. Nothing is proved of the functions here; their contracts
//! state what `rand` documents of every value it may hand out.

use vstd::prelude::*;
use rand::distributions::{Alphanumeric, Distribution, Uniform};
use rand::thread_rng;

verus! {

/// One of the 62 ASCII letters and digits.
pub open spec fn is_alphanumeric(c: u8) -> bool {
    ||| 0x30 <= c <= 0x39
    ||| 0x41 <= c <= 0x5a
    ||| 0x61 <= c <= 0x7a
}

/// Draws an integer in `[0, bound)` with `rand::distributions::Uniform`,
/// from `rand::thread_rng()`.
///
/// Trusted: `Uniform::from(low..high)` samples from the half-open range
/// and panics when the range is empty, which `bound > 0` rules out. Which
/// value comes is left open, so two calls may differ. `thread_rng` panics
/// if the operating system cannot seed it.
#[verifier::external_body]
pub(crate) fn uniform_below(bound: u64) -> (r: u64)
    requires
        bound > 0,
    ensures
        r < bound,
{
    Uniform::from(0..bound).sample(&mut thread_rng())
}

/// Draws a character with `rand::distributions::Alphanumeric`, from
/// `rand::thread_rng()`, and hands it out as its ASCII code.
///
/// Trusted: `Alphanumeric` picks from `A-Z`, `a-z` and `0-9` only. Which
/// one comes is left open.
#[verifier::external_body]
pub(crate) fn alphanumeric() -> (c: u8)
    ensures
        is_alphanumeric(c),
{
    Alphanumeric.sample(&mut thread_rng()) as u8
}

} // verus!
