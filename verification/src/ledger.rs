//! Runs of the pool: what holds over any sequence of accepted deposits and
//! withdrawals.

use crate::bytes::be_bytes;
use crate::bytes::be_value;
use crate::bytes::lemma_be_injective;
use crate::groth16::field_element;
use crate::groth16::masked;
use crate::groth16::scalar_modulus;
use crate::groth16::Proof;
use crate::groth16::VerifyingKeyInput;
use crate::keccak::keccak256_digest;
use crate::merkle::climb;
use crate::merkle::merkle_root;
use crate::merkle::siblings;
use crate::merkle::MerkleTree;
use crate::merkle::TREE_DEPTH;
use crate::shielded_pool::consistent;
use crate::shielded_pool::law_deposit_keeps_consistency;
use crate::shielded_pool::law_deposit_reports_its_leaf;
use crate::shielded_pool::law_initialized_pool_is_empty;
use crate::shielded_pool::law_recent_roots_are_known;
use crate::shielded_pool::law_request_is_accepted;
use crate::shielded_pool::law_withdrawal_pays_and_records;
use crate::shielded_pool::payments;
use crate::shielded_pool::received;
use crate::shielded_pool::Deposit;
use crate::shielded_pool::Initialize;
use crate::shielded_pool::Party;
use crate::shielded_pool::RequestError;
use crate::shielded_pool::Shield;
use crate::shielded_pool::Transfer;
use crate::shielded_pool::Unshield;
use crate::shielded_pool::Withdrawal;
use crate::state::Nullifier;
use crate::state::Pool;
use crate::state::ROOT_HISTORY_SIZE;
use vstd::arithmetic::div_mod::lemma_small_mod;
use vstd::prelude::*;

verus! {

/// All that the pool's accounts hold at one time: the pool, the tree, the
/// nullifier records by their hashes, and what the pool's operations have moved
/// into the vault, less what they have moved out of it.
pub struct Ledger {
    pub pool: Pool,
    pub tree: MerkleTree,
    pub nullifiers: Map<Seq<u8>, Nullifier>,
    pub vault: int,
}

/// An accepted request and what it brought about.
pub enum Operation {
    Shield { commitment: [u8; 32], deposit: Deposit },
    Unshield {
        proof: Proof,
        root: [u8; 32],
        nullifier_hash: [u8; 32],
        recipient: [u8; 32],
        fee: u64,
        withdrawal: Withdrawal,
    },
}

/// By how much `transfers` change what the vault holds.
pub open spec fn vault_change(transfers: Seq<Transfer>) -> int
    decreases transfers.len(),
{
    if transfers.len() == 0 {
        0
    } else {
        let last = transfers.last();
        vault_change(transfers.drop_last()) + (if last.to == Party::Vault {
            last.lamports as int
        } else {
            0
        }) - (if last.from == Party::Vault {
            last.lamports as int
        } else {
            0
        })
    }
}

/// The commitments of the deposits among `operations`, in their order.
pub open spec fn commitments(operations: Seq<Operation>) -> Seq<Seq<u8>>
    decreases operations.len(),
{
    if operations.len() == 0 {
        Seq::empty()
    } else {
        let earlier = commitments(operations.drop_last());
        match operations.last() {
            Operation::Shield { commitment, .. } => earlier.push(commitment@),
            Operation::Unshield { .. } => earlier,
        }
    }
}

/// The number of withdrawals among `operations`.
pub open spec fn withdrawals(operations: Seq<Operation>) -> int
    decreases operations.len(),
{
    if operations.len() == 0 {
        0
    } else {
        withdrawals(operations.drop_last()) + if operations.last() is Unshield {
            1int
        } else {
            0
        }
    }
}

impl Ledger {
    /// The accounts just after a successful initialization.
    pub open spec fn is_new(
        self,
        accounts: Initialize,
        denomination: u64,
        key: VerifyingKeyInput,
    ) -> bool {
        &&& accounts.refusal(denomination, key) is None
        &&& (Initialize {
            pool: Some(self.pool),
            tree: Some(self.tree),
            ..accounts
        }).is_initialization(accounts, denomination, key)
        &&& self.nullifiers == Map::<Seq<u8>, Nullifier>::empty()
        &&& self.vault == 0
    }

    /// The accounts that a deposit works on.
    pub open spec fn shield_accounts(self) -> Shield {
        Shield { pool: self.pool, tree: self.tree }
    }

    /// The accounts that a withdrawal works on.
    pub open spec fn unshield_accounts(self, nullifier_hash: Seq<u8>, recipient: [u8; 32]) -> Unshield {
        Unshield {
            pool: self.pool,
            nullifier: if self.nullifiers.contains_key(nullifier_hash) {
                Some(self.nullifiers[nullifier_hash])
            } else {
                None
            },
            recipient,
        }
    }

    /// `operation` is accepted in `self` and leads to `next`.
    pub open spec fn step(self, operation: Operation, next: Ledger) -> bool {
        match operation {
            Operation::Shield { commitment, deposit } => {
                &&& next.shield_accounts().is_deposit(
                    self.shield_accounts(),
                    commitment,
                    deposit,
                )
                &&& next.nullifiers == self.nullifiers
                &&& next.vault == self.vault + vault_change(seq![deposit.transfer])
            },
            Operation::Unshield { proof, root, nullifier_hash, recipient, fee, withdrawal } => {
                let before = self.unshield_accounts(nullifier_hash@, recipient);
                let after = next.unshield_accounts(nullifier_hash@, recipient);
                &&& before.refusal(proof, root@, nullifier_hash@, fee) is None
                &&& after.is_withdrawal(before, nullifier_hash, fee, withdrawal)
                &&& after.nullifier matches Some(record)
                &&& next == (Ledger {
                    nullifiers: self.nullifiers.insert(nullifier_hash@, record),
                    vault: self.vault + vault_change(withdrawal.transfers@),
                    ..self
                })
            },
        }
    }
}

/// `states` are the states that a pool passes through, from its initialization
/// on, as `operations` are accepted one after the other.
pub open spec fn is_run(states: Seq<Ledger>, operations: Seq<Operation>) -> bool {
    &&& states.len() == operations.len() + 1
    &&& exists|accounts: Initialize, denomination: u64, key: VerifyingKeyInput|
        #[trigger] states[0].is_new(accounts, denomination, key)
    &&& forall|n: int|
        0 <= n < operations.len() ==> states[n].step(#[trigger] operations[n], states[n + 1])
}

/// Law: at any time, the tree holds exactly the commitments shielded so far, in
/// their order, and the pool agrees with the tree.
pub proof fn law_run_is_consistent(states: Seq<Ledger>, operations: Seq<Operation>, n: nat)
    requires
        is_run(states, operations),
        n <= operations.len(),
    ensures
        consistent(
            states[n as int].pool,
            states[n as int].tree,
            commitments(operations.take(n as int)),
        ),
    decreases n,
{
    if n == 0 {
        let (accounts, denomination, key) = choose|
            accounts: Initialize,
            denomination: u64,
            key: VerifyingKeyInput,
        | #[trigger] states[0].is_new(accounts, denomination, key);
        law_initialized_pool_is_empty(
            accounts,
            Initialize { pool: Some(states[0].pool), tree: Some(states[0].tree), ..accounts },
            denomination,
            key,
        );
    } else {
        let m = n - 1;
        let earlier = operations.take(m);
        law_run_is_consistent(states, operations, m as nat);
        assert(operations.take(n as int).drop_last() =~= earlier);
        assert(operations.take(n as int).last() == operations[m]);
        assert(states[m].step(operations[m], states[m + 1]));
        match operations[m] {
            Operation::Shield { commitment, deposit } => {
                law_deposit_keeps_consistency(
                    states[m].shield_accounts(),
                    states[m + 1].shield_accounts(),
                    commitment,
                    deposit,
                    commitments(earlier),
                );
            },
            Operation::Unshield { .. } => {},
        }
    }
}

/// Law: the denomination, the verifying key and the authority never change.
pub proof fn law_terms_are_fixed(states: Seq<Ledger>, operations: Seq<Operation>, n: nat)
    requires
        is_run(states, operations),
        n <= operations.len(),
    ensures
        states[n as int].pool.denomination == states[0].pool.denomination,
        states[n as int].pool.verifying_key == states[0].pool.verifying_key,
        states[n as int].pool.authority == states[0].pool.authority,
        states[n as int].pool.vault_bump == states[0].pool.vault_bump,
        states[n as int].pool.bump == states[0].pool.bump,
    decreases n,
{
    if n > 0 {
        let m = n - 1;
        law_terms_are_fixed(states, operations, m as nat);
        assert(states[m].step(operations[m], states[m + 1]));
    }
}

/// Law: a withdrawal pays out the whole denomination and no more, and of it the
/// recipient gets something.
pub proof fn law_payments_are_the_denomination(denomination: u64, fee: u64)
    requires
        fee < denomination,
    ensures
        vault_change(payments(denomination, fee)) == -denomination,
        payments(denomination, fee)[0].to == Party::Recipient,
        payments(denomination, fee)[0].lamports > 0,
        payments(denomination, fee)[0].lamports + fee == denomination,
{
    reveal_with_fuel(vault_change, 3);
    let all = payments(denomination, fee);
    if fee > 0 {
        assert(all.drop_last() =~= seq![all[0]]);
        assert(all.drop_last().drop_last() =~= Seq::<Transfer>::empty());
    } else {
        assert(all.drop_last() =~= Seq::<Transfer>::empty());
    }
}

/// Law: what the operations leave in the vault is one denomination for each
/// deposit that was not yet matched by a withdrawal.
pub proof fn law_vault_balance(states: Seq<Ledger>, operations: Seq<Operation>, n: nat)
    requires
        is_run(states, operations),
        n <= operations.len(),
    ensures
        states[n as int].vault == states[0].pool.denomination * (commitments(
            operations.take(n as int),
        ).len() - withdrawals(operations.take(n as int))),
    decreases n,
{
    let denomination = states[0].pool.denomination as int;
    if n == 0 {
        assert(denomination * 0 == 0);
    } else {
        let m = n - 1;
        let earlier = operations.take(m);
        law_vault_balance(states, operations, m as nat);
        law_terms_are_fixed(states, operations, m as nat);
        assert(operations.take(n as int).drop_last() =~= earlier);
        assert(operations.take(n as int).last() == operations[m]);
        assert(states[m].step(operations[m], states[m + 1]));
        let notes = commitments(earlier).len() - withdrawals(earlier);
        match operations[m] {
            Operation::Shield { commitment, deposit } => {
                reveal_with_fuel(vault_change, 2);
                assert(seq![deposit.transfer].drop_last() =~= Seq::<Transfer>::empty());
                assert(denomination * (notes + 1) == denomination * notes + denomination)
                    by (nonlinear_arith);
            },
            Operation::Unshield { fee, .. } => {
                law_payments_are_the_denomination(states[0].pool.denomination, fee);
                assert(denomination * (notes - 1) == denomination * notes - denomination)
                    by (nonlinear_arith);
            },
        }
    }
}

/// Once there is a record under a hash, it stays.
proof fn lemma_records_stay(
    states: Seq<Ledger>,
    operations: Seq<Operation>,
    hash: Seq<u8>,
    from: nat,
    to: nat,
)
    requires
        is_run(states, operations),
        from <= to <= operations.len(),
        states[from as int].nullifiers.contains_key(hash),
    ensures
        states[to as int].nullifiers.contains_key(hash),
    decreases to - from,
{
    if from < to {
        let m = to - 1;
        lemma_records_stay(states, operations, hash, from, m as nat);
        assert(states[m].step(operations[m], states[m + 1]));
    }
}

/// Law: after a withdrawal, every request under the same nullifier hash is refused
/// because its record exists, at any later time, whatever its proof, root,
/// recipient and fee.
pub proof fn law_no_double_spend(
    states: Seq<Ledger>,
    operations: Seq<Operation>,
    spent: nat,
    later: nat,
    proof_again: Proof,
    root: Seq<u8>,
    recipient: [u8; 32],
    fee: u64,
)
    requires
        is_run(states, operations),
        spent < later <= operations.len(),
        operations[spent as int] is Unshield,
    ensures
        ({
            let hash = operations[spent as int]->Unshield_nullifier_hash@;
            states[later as int].unshield_accounts(hash, recipient).refusal(
                proof_again,
                root,
                hash,
                fee,
            ) == Some(RequestError::AccountInUse)
        }),
{
    let m = spent as int;
    let hash = operations[m]->Unshield_nullifier_hash@;
    assert(states[m].step(operations[m], states[m + 1]));
    assert(states[m + 1].nullifiers.contains_key(hash));
    lemma_records_stay(states, operations, hash, spent + 1, later);
}

/// Law: no two withdrawals of a run have the same nullifier hash.
pub proof fn law_nullifiers_are_distinct(
    states: Seq<Ledger>,
    operations: Seq<Operation>,
    first: nat,
    second: nat,
)
    requires
        is_run(states, operations),
        first < second < operations.len(),
        operations[first as int] is Unshield,
        operations[second as int] is Unshield,
    ensures
        operations[first as int]->Unshield_nullifier_hash
            != operations[second as int]->Unshield_nullifier_hash,
{
    let m = second as int;
    assert(states[m].step(operations[m], states[m + 1]));
    match operations[m] {
        Operation::Unshield { proof, root, nullifier_hash, recipient, fee, withdrawal } => {
            law_no_double_spend(
                states,
                operations,
                first,
                second,
                proof,
                root@,
                recipient,
                fee,
            );
        },
        Operation::Shield { .. } => {},
    }
}

/// Law: a note is spent at most once. After a withdrawal, every request under a
/// nullifier hash that is the same element of the scalar field, in whatever
/// encoding, is refused at any later time, whatever its proof, root, recipient and
/// fee.
pub proof fn law_no_double_spend_in_any_encoding(
    states: Seq<Ledger>,
    operations: Seq<Operation>,
    spent: nat,
    later: nat,
    proof_again: Proof,
    root: Seq<u8>,
    hash: [u8; 32],
    recipient: [u8; 32],
    fee: u64,
)
    requires
        is_run(states, operations),
        spent < later <= operations.len(),
        operations[spent as int] is Unshield,
        be_value(hash@) % scalar_modulus() == be_value(
            operations[spent as int]->Unshield_nullifier_hash@,
        ) % scalar_modulus(),
    ensures
        states[later as int].unshield_accounts(hash@, recipient).refusal(
            proof_again,
            root,
            hash@,
            fee,
        ) is Some,
{
    let first = operations[spent as int]->Unshield_nullifier_hash;
    let r = scalar_modulus();
    assert(states[spent as int].step(operations[spent as int], states[spent as int + 1]));
    if be_value(hash@) < r {
        lemma_small_mod(be_value(hash@), r);
        lemma_small_mod(be_value(first@), r);
        lemma_be_injective(hash@, first@);
        law_no_double_spend(
            states,
            operations,
            spent,
            later,
            proof_again,
            root,
            recipient,
            fee,
        );
    }
}

/// Law: the nullifier hashes of two withdrawals of a run are different elements of
/// the scalar field.
pub proof fn law_nullifiers_are_distinct_scalars(
    states: Seq<Ledger>,
    operations: Seq<Operation>,
    first: nat,
    second: nat,
)
    requires
        is_run(states, operations),
        first < second < operations.len(),
        operations[first as int] is Unshield,
        operations[second as int] is Unshield,
    ensures
        be_value(operations[first as int]->Unshield_nullifier_hash@) % scalar_modulus()
            != be_value(operations[second as int]->Unshield_nullifier_hash@) % scalar_modulus(),
{
    let n = first as int;
    let m = second as int;
    let r = scalar_modulus();
    let hash1 = operations[n]->Unshield_nullifier_hash;
    let hash2 = operations[m]->Unshield_nullifier_hash;
    assert(states[n].step(operations[n], states[n + 1]));
    assert(states[m].step(operations[m], states[m + 1]));
    lemma_small_mod(be_value(hash1@), r);
    lemma_small_mod(be_value(hash2@), r);
    law_nullifiers_are_distinct(states, operations, first, second);
    if be_value(hash1@) == be_value(hash2@) {
        lemma_be_injective(hash1@, hash2@);
        assert(hash1 =~= hash2);
    }
}

/// Law: a record shows that its note was withdrawn. Where there is a record under a
/// hash, an earlier operation of the run is a withdrawal under that hash.
pub proof fn law_record_shows_withdrawal(
    states: Seq<Ledger>,
    operations: Seq<Operation>,
    n: nat,
    hash: Seq<u8>,
)
    requires
        is_run(states, operations),
        n <= operations.len(),
        states[n as int].nullifiers.contains_key(hash),
    ensures
        exists|i: int|
            0 <= i < n && #[trigger] operations[i] is Unshield
                && operations[i]->Unshield_nullifier_hash@ == hash,
    decreases n,
{
    if n > 0 {
        let m = n - 1;
        assert(states[m].step(operations[m], states[m + 1]));
        if states[m].nullifiers.contains_key(hash) {
            law_record_shows_withdrawal(states, operations, m as nat, hash);
        } else {
            assert(operations[m] is Unshield);
            assert(operations[m]->Unshield_nullifier_hash@ == hash);
        }
    }
}

/// Law: every withdrawal is checked with the key that the pool was initialized with.
/// At any time, each point of the stored key is the one that was handed in under its
/// name, and each withdrawal has a proof that this key finds valid for the field
/// elements of its root and of its nullifier hash and for the masked digests of its
/// recipient and of its fee.
pub proof fn law_withdrawals_use_the_initial_key(
    states: Seq<Ledger>,
    operations: Seq<Operation>,
    accounts: Initialize,
    denomination: u64,
    key: VerifyingKeyInput,
    n: nat,
)
    requires
        is_run(states, operations),
        states[0].is_new(accounts, denomination, key),
        n <= operations.len(),
    ensures
        ({
            let stored = states[n as int].pool.verifying_key;
            &&& stored.alpha_g1 == key.alpha_g1
            &&& stored.beta_g2 == key.beta_g2
            &&& stored.gamma_g2 == key.gamma_g2
            &&& stored.delta_g2 == key.delta_g2
            &&& stored.ic@ == key.ic@
            &&& states[n as int].pool.denomination == denomination
            &&& states[n as int].pool.authority == accounts.authority
            &&& n < operations.len() ==> (operations[n as int] matches Operation::Unshield {
                proof,
                root,
                nullifier_hash,
                recipient,
                fee,
                ..
            } ==> stored.verdict(
                proof,
                seq![
                    field_element(root@),
                    field_element(nullifier_hash@),
                    masked(keccak256_digest(recipient@)),
                    masked(keccak256_digest(be_bytes(fee as nat, 8))),
                ],
            ) == Some(true))
        }),
{
    law_terms_are_fixed(states, operations, n);
    if n < operations.len() {
        let m = n as int;
        assert(states[m].step(operations[m], states[m + 1]));
        match operations[m] {
            Operation::Unshield { proof, root, nullifier_hash, recipient, fee, .. } => {
                law_request_is_accepted(
                    states[m].unshield_accounts(nullifier_hash@, recipient),
                    proof,
                    root,
                    nullifier_hash@,
                    fee,
                );
            },
            Operation::Shield { .. } => {},
        }
    }
}

/// Law: the deposits of a run are numbered from 0 on. Each reports as its index how
/// many came before it, and a root to which its siblings lead from that index.
pub proof fn law_deposits_are_numbered(states: Seq<Ledger>, operations: Seq<Operation>, n: nat)
    requires
        is_run(states, operations),
        n < operations.len(),
        operations[n as int] is Shield,
    ensures
        ({
            let earlier = commitments(operations.take(n as int));
            let commitment = operations[n as int]->Shield_commitment;
            let deposit = operations[n as int]->Shield_deposit;
            &&& deposit.event.leaf_index == earlier.len()
            &&& deposit.event.commitment == commitment
            &&& climb(
                commitment@,
                earlier.len(),
                siblings(earlier.push(commitment@), earlier.len()),
                TREE_DEPTH as nat,
            ) == deposit.event.new_root@
            &&& deposit.transfer.from == Party::Depositor
            &&& deposit.transfer.to == Party::Vault
            &&& deposit.transfer.lamports == states[0].pool.denomination
        }),
{
    let m = n as int;
    law_run_is_consistent(states, operations, n);
    law_terms_are_fixed(states, operations, n);
    assert(states[m].step(operations[m], states[m + 1]));
    law_deposit_reports_its_leaf(
        states[m].shield_accounts(),
        states[m + 1].shield_accounts(),
        operations[m]->Shield_commitment,
        operations[m]->Shield_deposit,
        commitments(operations.take(m)),
        0,
    );
}

/// Law: every withdrawal of a run names a root that the tree had before it, at most
/// `ROOT_HISTORY_SIZE - 1` deposits earlier, and pays the fee to the relayer and the
/// rest of the initial denomination to the recipient.
pub proof fn law_withdrawals_pay_the_denomination(
    states: Seq<Ledger>,
    operations: Seq<Operation>,
    n: nat,
)
    requires
        is_run(states, operations),
        n < operations.len(),
        operations[n as int] is Unshield,
    ensures
        ({
            let leaves = commitments(operations.take(n as int));
            let root = operations[n as int]->Unshield_root;
            let fee = operations[n as int]->Unshield_fee;
            let withdrawal = operations[n as int]->Unshield_withdrawal;
            &&& exists|count: int|
                leaves.len() - ROOT_HISTORY_SIZE < count <= leaves.len() && 0 <= count && root@
                    == merkle_root(#[trigger] leaves.take(count))
            &&& fee < states[0].pool.denomination
            &&& received(withdrawal.transfers@, Party::Relayer) == fee
            &&& received(withdrawal.transfers@, Party::Recipient) == states[0].pool.denomination
                - fee
            &&& withdrawal.event.recipient == operations[n as int]->Unshield_recipient
            &&& withdrawal.event.nullifier_hash == operations[n as int]->Unshield_nullifier_hash
            &&& withdrawal.event.fee == fee
        }),
{
    let m = n as int;
    law_run_is_consistent(states, operations, n);
    law_terms_are_fixed(states, operations, n);
    assert(states[m].step(operations[m], states[m + 1]));
    match operations[m] {
        Operation::Unshield { proof, root, nullifier_hash, recipient, fee, withdrawal } => {
            let before = states[m].unshield_accounts(nullifier_hash@, recipient);
            let after = states[m + 1].unshield_accounts(nullifier_hash@, recipient);
            law_recent_roots_are_known(
                states[m].pool,
                states[m].tree,
                commitments(operations.take(m)),
                root@,
            );
            law_withdrawal_pays_and_records(before, after, nullifier_hash, fee, withdrawal);
        },
        Operation::Shield { .. } => {},
    }
}

} // verus!
