# Shielded pool

A shielded pool of one fixed denomination. A deposit (*shield*) puts a note
commitment into an incremental Merkle tree. A withdrawal (*unshield*) shows, with
a Groth16 proof, knowledge of a note in the tree, without telling which, and
reveals a nullifier that is recorded so that the note cannot be spent twice, in
whatever encoding the nullifier is given.

`src/` is the pool itself, verified with Verus:

- `merkle`: the tree. An insertion yields the root of the full tree over all
  leaves inserted so far.
- `state`: the pool, with its ring buffer of recent roots, and nullifier records.
- `groth16`: verifying keys, proofs, public inputs and verification.
- `shielded_pool`: the operations `initialize`, `shield` and `unshield`, with what
  each accepts, refuses and brings about.
- `ledger`: laws over whole runs: no two withdrawals have nullifiers that are the
  same element of the scalar field, a record shows a withdrawal, the vault holds
  one denomination for each deposit less one for each withdrawal, and the tree
  holds exactly the shielded commitments.
- `bytes`: big-endian byte strings and their values.
- `keccak`, `curve`: the Keccak-256 hash and the alt_bn128 operations, which come
  from `anchor_lang` and are trusted as their comments say.

`app/` is the Solana program around it: accounts, transfers and events.
