//! Draws from the thread-local random number generator of the `rand` crate.
//!
//! Which value comes out is left open everywhere: callers are verified for
//! every outcome.

use rand::rngs::ThreadRng;
use rand::{Rng, RngCore};
use vstd::prelude::*;

verus! {

#[verifier::external_type_specification]
#[verifier::external_body]
pub struct ExThreadRng(ThreadRng);

/// Calls `rand::Rng::gen_range` on `low..high`. The result lies in that
/// range; which value it is depends on chance. The call panics on an empty
/// range.
#[verifier::external_body]
pub(crate) fn gen_range(rng: &mut ThreadRng, low: u64, high: u64) -> (r: u64)
    requires
        low < high,
    ensures
        low <= r < high,
{
    rng.gen_range(low..high)
}

/// Calls `rand::Rng::gen` for a `u64`. Nothing is promised of the value.
#[verifier::external_body]
pub(crate) fn gen_u64(rng: &mut ThreadRng) -> (r: u64) {
    rng.gen::<u64>()
}

/// Calls `rand::random` for a `usize`. Nothing is promised of the value.
#[verifier::external_body]
pub(crate) fn random_usize() -> (r: usize) {
    rand::random::<usize>()
}

/// Calls `rand::Rng::gen_ratio` with odds of one in two. Nothing is promised
/// of the outcome.
#[verifier::external_body]
pub(crate) fn coin(rng: &mut ThreadRng) -> (r: bool) {
    rng.gen_ratio(1, 2)
}

/// Calls `rand::RngCore::fill_bytes` on the whole buffer, which keeps its
/// length. Nothing is promised of the bytes.
#[verifier::external_body]
pub(crate) fn fill_bytes(rng: &mut ThreadRng, buf: &mut Vec<u8>)
    ensures
        final(buf)@.len() == old(buf)@.len(),
{
    rng.fill_bytes(buf.as_mut_slice());
}

/// A value below `n`.
pub fn below(rng: &mut ThreadRng, n: usize) -> (r: usize)
    requires
        0 < n,
    ensures
        r < n,
{
    gen_range(rng, 0, n as u64) as usize
}

/// A value below `n`.
pub fn below_u32(rng: &mut ThreadRng, n: u32) -> (r: u32)
    requires
        0 < n,
    ensures
        r < n,
{
    gen_range(rng, 0, n as u64) as u32
}

/// Any byte.
pub fn any_byte(rng: &mut ThreadRng) -> (r: u8) {
    gen_range(rng, 0, 256) as u8
}

} // verus!
