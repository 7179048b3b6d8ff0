//! Hashes of coverage maps.

use std::hash::{Hash, Hasher};
use vstd::prelude::*;

verus! {

/// Hashes `data` with a default `ahash::AHasher`. Which hash comes out depends
/// on the machine and on how the hasher's keys were set up, so nothing is
/// promised of it.
#[verifier::external_body]
pub fn hash_slice(data: &[u8]) -> (r: u64) {
    let mut hasher = ahash::AHasher::default();
    data.hash(&mut hasher);
    hasher.finish()
}

} // verus!
