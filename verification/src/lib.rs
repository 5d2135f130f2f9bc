//! A shielded pool: deposits of one fixed denomination, recorded as note
//! commitments in an incremental Merkle tree, and withdrawals that reveal only
//! a nullifier and a Groth16 proof.

pub mod bytes;
pub mod curve;
pub mod errors;
pub mod groth16;
pub mod keccak;
pub mod ledger;
pub mod merkle;
pub mod shielded_pool;
pub mod state;
