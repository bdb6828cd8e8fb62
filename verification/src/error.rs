//! Failures reported by the block and its tree.

use vstd::prelude::*;

verus! {

/// Why an operation on a block, a tree or an encoded transaction failed.
#[derive(Clone, Copy, Debug, PartialEq, Eq, Structural, Hash)]
pub enum BlockError {
    /// The transaction's namespace id is smaller than that of the last leaf.
    OutOfOrderNamespace,
    /// The block was frozen before the append.
    BlockFrozen,
    /// The bytes are not the canonical encoding of a transaction.
    EncodingFailure,
    /// A proof does not connect its leaves to the root it was checked against.
    ProofVerificationFailed,
}

impl BlockError {
    /// A short description of the failure.
    pub fn message(&self) -> (text: &'static str)
        ensures
            text@ == match *self {
                BlockError::OutOfOrderNamespace => "namespace id is smaller than the last leaf's"@,
                BlockError::BlockFrozen => "block is frozen"@,
                BlockError::EncodingFailure => "bytes do not encode a transaction"@,
                BlockError::ProofVerificationFailed => "proof verification failed"@,
            },
    {
        match self {
            BlockError::OutOfOrderNamespace => "namespace id is smaller than the last leaf's",
            BlockError::BlockFrozen => "block is frozen",
            BlockError::EncodingFailure => "bytes do not encode a transaction",
            BlockError::ProofVerificationFailed => "proof verification failed",
        }
    }
}

} // verus!
