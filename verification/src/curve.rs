//! The alt_bn128 (BN254) curve operations that proof verification rests on.
//!
//! Each operation is a function of its input bytes and has a name here. What the
//! group law and the pairing are is not spelled out.

use crate::bytes::zero_bytes;
use anchor_lang::solana_program::alt_bn128::prelude::alt_bn128_addition;
use anchor_lang::solana_program::alt_bn128::prelude::alt_bn128_multiplication;
use anchor_lang::solana_program::alt_bn128::prelude::alt_bn128_pairing;
use anchor_lang::solana_program::alt_bn128::prelude::AltBn128Error;
use vstd::prelude::*;

verus! {

/// The error of the alt_bn128 operations. Nothing is claimed of it.
#[verifier::external_type_specification]
#[verifier::external_body]
pub struct ExAltBn128Error(AltBn128Error);

/// What `alt_bn128_addition` makes of an input: the encoded sum of the two G1
/// points that it holds, or `None` where the operation fails.
pub uninterp spec fn addition_output(input: Seq<u8>) -> Option<Seq<u8>>;

/// What `alt_bn128_multiplication` makes of an input: the encoded product of
/// the G1 point and the scalar that it holds, or `None` where the operation
/// fails.
pub uninterp spec fn multiplication_output(input: Seq<u8>) -> Option<Seq<u8>>;

/// What `alt_bn128_pairing` makes of an input: 32 bytes that tell whether the
/// product of the pairings of the (G1, G2) pairs that it holds is the identity,
/// or `None` where the operation fails.
pub uninterp spec fn pairing_output(input: Seq<u8>) -> Option<Seq<u8>>;

/// `alt_bn128_addition` of `anchor_lang::solana_program::alt_bn128`. Trusted:
/// whether it succeeds, and with what bytes, depends on the input alone, and on
/// success it returns one encoded G1 point, 64 bytes.
pub assume_specification[ alt_bn128_addition ](input: &[u8]) -> (output: Result<
    Vec<u8>,
    AltBn128Error,
>)
    ensures
        match output {
            Ok(bytes) => addition_output(input@) == Some(bytes@) && bytes@.len() == 64,
            Err(_) => addition_output(input@) is None,
        },
;

/// `alt_bn128_multiplication` of `anchor_lang::solana_program::alt_bn128`.
/// Trusted: whether it succeeds, and with what bytes, depends on the input
/// alone, and on success it returns one encoded G1 point, 64 bytes. The product
/// of a point and the scalar zero is the point at infinity, whose encoding is all
/// zero.
pub assume_specification[ alt_bn128_multiplication ](input: &[u8]) -> (output: Result<
    Vec<u8>,
    AltBn128Error,
>)
    ensures
        match output {
            Ok(bytes) => {
                &&& multiplication_output(input@) == Some(bytes@)
                &&& bytes@.len() == 64
                &&& input@.len() == 96 && input@.skip(64) == zero_bytes(32) ==> bytes@
                    == zero_bytes(64)
            },
            Err(_) => multiplication_output(input@) is None,
        },
;

/// `alt_bn128_pairing` of `anchor_lang::solana_program::alt_bn128`. Trusted:
/// whether it succeeds, and with what bytes, depends on the input alone, and on
/// success it returns 32 bytes.
pub assume_specification[ alt_bn128_pairing ](input: &[u8]) -> (output: Result<
    Vec<u8>,
    AltBn128Error,
>)
    ensures
        match output {
            Ok(bytes) => pairing_output(input@) == Some(bytes@) && bytes@.len() == 32,
            Err(_) => pairing_output(input@) is None,
        },
;

} // verus!
