//! Seeds for the keys that sign light client states.
//!
//! A node derives the seed of each of its keys from one master seed and the
//! index of the key, so that the keys can be derived again from the master
//! seed alone.

use vstd::prelude::*;
use vstd::bytes::spec_u64_to_le_bytes;
use crate::bytes::copy_bytes;
use crate::hash::{blake3, blake3_of};
use crate::transaction::push_u64_le;

verus! {

/// What is hashed to derive the seed of the key with index `index`: the
/// master seed, then the index as eight little-endian bytes.
pub open spec fn indexed_seed_input(seed: Seq<u8>, index: u64) -> Seq<u8> {
    seed + spec_u64_to_le_bytes(index)
}

/// The seed of the key with index `index` under the master seed `seed`: the
/// BLAKE3 digest of the master seed followed by the index.
pub fn indexed_seed(seed: &[u8; 32], index: u64) -> (derived: [u8; 32])
    ensures
        derived@ == blake3_of(indexed_seed_input(seed@, index)),
{
    let mut input = copy_bytes(seed.as_slice());
    push_u64_le(&mut input, index);
    blake3(&input)
}

} // verus!
