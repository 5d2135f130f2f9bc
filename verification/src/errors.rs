//! What the pool refuses, and why.

use vstd::prelude::*;

verus! {

#[derive(Clone, Copy, Debug, PartialEq, Eq)]
pub enum ShieldedError {
    /// Denomination must be greater than zero.
    InvalidDenomination,
    /// The Merkle tree is full.
    TreeFull,
    /// The provided Merkle root is unknown or expired.
    UnknownRoot,
    /// The zero-knowledge proof is invalid.
    InvalidProof,
    /// Fee must be less than the denomination.
    FeeTooHigh,
    /// Malformed verifying key or proof encoding.
    MalformedInput,
    /// alt_bn128 pairing/curve operation failed.
    CurveOperationFailed,
}

} // verus!
