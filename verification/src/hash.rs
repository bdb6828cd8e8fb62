//! The hash functions the library consumes.
//!
//! Each wrapper names its result with an uninterpreted function of the input
//! bytes. The verifier knows nothing of a digest beyond the fact that equal
//! inputs give equal digests.

use vstd::prelude::*;

verus! {

/// The SHA3-256 digest of `data`, as 32 bytes.
pub uninterp spec fn sha3_256_of(data: Seq<u8>) -> Seq<u8>;

/// The Keccak-256 digest of `data`, as 32 bytes.
pub uninterp spec fn keccak256_of(data: Seq<u8>) -> Seq<u8>;

/// The BLAKE3 digest of `data` in the default 32-byte output mode.
pub uninterp spec fn blake3_of(data: Seq<u8>) -> Seq<u8>;

/// The SHA3-256 digest as the tree's contracts use it: the named digest where
/// that is 32 bytes long, as every digest the wrapper hands out is, and 32
/// zero bytes elsewhere. It is total and of fixed width, so a hash input that
/// holds digests can be cut back into its parts.
pub open spec fn tree_hash(data: Seq<u8>) -> Seq<u8> {
    let digest = sha3_256_of(data);
    if digest.len() == 32 {
        digest
    } else {
        Seq::new(32, |i: int| 0u8)
    }
}

/// Two different byte strings with the same tree hash.
pub open spec fn collision(a: Seq<u8>, b: Seq<u8>) -> bool {
    a != b && tree_hash(a) == tree_hash(b)
}

/// The tree hash of `data`.
pub fn hash_bytes(data: &Vec<u8>) -> (out: [u8; 32])
    ensures
        out@ == tree_hash(data@),
{
    sha3_256(data)
}

/// Calls `sha3::Sha3_256::digest` on `data`. Trusted: the result is the
/// SHA3-256 digest of exactly the bytes of `data`, a pure function of them.
#[verifier::external_body]
pub(crate) fn sha3_256(data: &Vec<u8>) -> (out: [u8; 32])
    ensures
        out@ == sha3_256_of(data@),
{
    let digest = <sha3::Sha3_256 as sha3::Digest>::digest(data.as_slice());
    digest.into()
}

/// Calls `sha3::Keccak256::digest` on `data`. Trusted: the result is the
/// Keccak-256 digest of exactly the bytes of `data`, a pure function of them.
#[verifier::external_body]
pub(crate) fn keccak256(data: &Vec<u8>) -> (out: [u8; 32])
    ensures
        out@ == keccak256_of(data@),
{
    let digest = <sha3::Keccak256 as sha3::Digest>::digest(data.as_slice());
    digest.into()
}

/// Calls `blake3::hash` on `data`. Trusted: the result is the 32-byte BLAKE3
/// digest of exactly the bytes of `data`, a pure function of them.
#[verifier::external_body]
pub(crate) fn blake3(data: &Vec<u8>) -> (out: [u8; 32])
    ensures
        out@ == blake3_of(data@),
{
    let digest = blake3::hash(data.as_slice());
    *digest.as_bytes()
}

} // verus!
