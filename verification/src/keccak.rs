//! The Keccak-256 hash.

use vstd::prelude::*;

verus! {

/// The Keccak-256 digest of a byte string.
pub uninterp spec fn keccak256_digest(data: Seq<u8>) -> Seq<u8>;

/// Calls `anchor_lang::solana_program::keccak::hash` and takes the bytes of the
/// hash it returns. Trusted: the digest depends on the bytes hashed alone.
#[verifier::external_body]
pub(crate) fn keccak256(data: &[u8]) -> (digest: [u8; 32])
    ensures
        digest@ == keccak256_digest(data@),
{
    anchor_lang::solana_program::keccak::hash(data).to_bytes()
}

} // verus!
