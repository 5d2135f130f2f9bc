//! The three operations of the pool: initialize, shield (deposit) and unshield
//! (withdraw).
//!
//! Each works on the accounts of its request as plain values and returns the
//! transfers that go with it. A request that is refused changes nothing.

use crate::bytes::be_bytes;
use crate::bytes::be_value;
use crate::bytes::is_below;
use crate::bytes::lemma_be_zero;
use crate::bytes::zero_bytes;
use crate::errors::ShieldedError;
use crate::groth16::build_public_inputs;
use crate::groth16::field_element;
use crate::groth16::masked;
use crate::groth16::public_inputs;
use crate::groth16::scalar_modulus;
use crate::groth16::Proof;
use crate::groth16::VerifyingKey;
use crate::groth16::VerifyingKeyInput;
use crate::groth16::BN254_SCALAR_MODULUS;
use crate::groth16::NUM_IC_POINTS;
use crate::keccak::keccak256_digest;
use crate::merkle::climb;
use crate::merkle::law_insertion_appends;
use crate::merkle::law_leaf_is_under_root;
use crate::merkle::merkle_root;
use crate::merkle::siblings;
use crate::merkle::MerkleTree;
use crate::merkle::MAX_LEAVES;
use crate::merkle::TREE_DEPTH;
use crate::state::law_known_root_is_in_a_slot;
use crate::state::law_known_roots;
use crate::state::law_push_tracks;
use crate::state::law_push_writes_one_slot;
use crate::state::Nullifier;
use crate::state::Pool;
use crate::state::ROOT_HISTORY_SIZE;
use vstd::prelude::*;

verus! {

/// An account that lamports move from or to.
#[derive(Clone, Copy, Debug, PartialEq, Eq)]
pub enum Party {
    Depositor,
    Vault,
    Recipient,
    Relayer,
}

/// A movement of lamports.
#[derive(Clone, Copy, Debug, PartialEq, Eq)]
pub struct Transfer {
    pub from: Party,
    pub to: Party,
    pub lamports: u64,
}

/// A commitment was inserted.
#[derive(Clone, Copy, Debug, PartialEq, Eq)]
pub struct ShieldEvent {
    pub commitment: [u8; 32],
    pub leaf_index: u64,
    pub new_root: [u8; 32],
}

/// A note was withdrawn.
#[derive(Clone, Copy, Debug, PartialEq, Eq)]
pub struct UnshieldEvent {
    pub nullifier_hash: [u8; 32],
    pub recipient: [u8; 32],
    pub fee: u64,
}

/// The accounts of an initialization. It creates the pool and the tree, so neither
/// exists before it.
#[derive(Clone, Debug, PartialEq, Eq)]
pub struct Initialize {
    pub authority: [u8; 32],
    pub pool: Option<Pool>,
    pub tree: Option<MerkleTree>,
    pub vault_bump: u8,
    pub pool_bump: u8,
}

/// The accounts of a deposit.
#[derive(Clone, Debug, PartialEq, Eq)]
pub struct Shield {
    pub pool: Pool,
    pub tree: MerkleTree,
}

/// The accounts of a withdrawal. `nullifier` is the record that is kept under
/// the nullifier hash, if there is one.
#[derive(Clone, Debug, PartialEq, Eq)]
pub struct Unshield {
    pub pool: Pool,
    pub nullifier: Option<Nullifier>,
    pub recipient: [u8; 32],
}

/// What an accepted deposit brings about.
#[derive(Clone, Debug, PartialEq, Eq)]
pub struct Deposit {
    pub transfer: Transfer,
    pub event: ShieldEvent,
}

/// What an accepted withdrawal brings about: the transfers, in order, and the
/// event.
#[derive(Clone, Debug, PartialEq, Eq)]
pub struct Withdrawal {
    pub transfers: Vec<Transfer>,
    pub event: UnshieldEvent,
}

/// Why a request that creates an account is refused.
#[derive(Clone, Copy, Debug, PartialEq, Eq)]
pub enum RequestError {
    /// The account already exists: the pool was initialized before, or the note
    /// is spent.
    AccountInUse,
    /// The pool's own rules refuse it.
    Refused(ShieldedError),
}

/// The root of the tree after each number of deposits, from none on.
pub open spec fn root_history(leaves: Seq<Seq<u8>>) -> Seq<Seq<u8>> {
    Seq::new(leaves.len() + 1, |n: int| merkle_root(leaves.take(n)))
}

/// The pool and the tree are those of a pool into which exactly `leaves` were
/// shielded, in that order.
pub open spec fn consistent(pool: Pool, tree: MerkleTree, leaves: Seq<Seq<u8>>) -> bool {
    &&& tree.represents(leaves)
    &&& pool.tracks(root_history(leaves))
    &&& pool.next_leaf_index == leaves.len()
    &&& pool.denomination > 0
}

impl Initialize {
    /// Why the request is refused, if it is.
    pub open spec fn refusal(self, denomination: u64, key: VerifyingKeyInput) -> Option<
        RequestError,
    > {
        if self.pool is Some || self.tree is Some {
            Some(RequestError::AccountInUse)
        } else if denomination == 0 {
            Some(RequestError::Refused(ShieldedError::InvalidDenomination))
        } else if key.ic@.len() != NUM_IC_POINTS {
            Some(RequestError::Refused(ShieldedError::MalformedInput))
        } else {
            None
        }
    }

    /// `self` is `pre` after an initialization: the tree is empty, and the ring
    /// buffer holds its root in the first slot and zeros in the others.
    pub open spec fn is_initialization(
        self,
        pre: Initialize,
        denomination: u64,
        key: VerifyingKeyInput,
    ) -> bool {
        &&& self == (Initialize { pool: self.pool, tree: self.tree, ..pre })
        &&& self.tree matches Some(tree)
        &&& self.pool matches Some(pool)
        &&& tree.represents(Seq::empty())
        &&& pool.authority == pre.authority
        &&& pool.denomination == denomination
        &&& pool.next_leaf_index == 0
        &&& pool.root_index == 0
        &&& pool.current_root == tree.root
        &&& pool.roots@[0] == tree.root
        &&& forall|i: int|
            #![trigger pool.roots@[i]]
            1 <= i < ROOT_HISTORY_SIZE ==> pool.roots@[i]@ == zero_bytes(32)
        &&& pool.verifying_key.is_of_input(key)
        &&& pool.vault_bump == pre.vault_bump
        &&& pool.bump == pre.pool_bump
    }
}

/// One-time initialization of the pool: sets the fixed denomination and the
/// empty Merkle tree, and stores the verifying key that withdrawals are checked
/// with.
pub fn initialize(
    ctx: &mut Initialize,
    denomination: u64,
    verifying_key: VerifyingKeyInput,
) -> (result: Result<(), RequestError>)
    ensures
        match result {
            Ok(_) => {
                &&& old(ctx).refusal(denomination, verifying_key) is None
                &&& final(ctx).is_initialization(*old(ctx), denomination, verifying_key)
                &&& consistent(final(ctx).pool->0, final(ctx).tree->0, Seq::empty())
                &&& final(ctx).pool matches Some(pool)
                &&& final(ctx).tree matches Some(tree)
                &&& pool.authority == old(ctx).authority
                &&& pool.denomination == denomination
                &&& pool.next_leaf_index == 0
                &&& pool.root_index == 0
                &&& pool.current_root@ == merkle_root(Seq::empty())
                &&& pool.roots@[0]@ == merkle_root(Seq::empty())
                &&& pool.verifying_key.alpha_g1 == verifying_key.alpha_g1
                &&& pool.verifying_key.beta_g2 == verifying_key.beta_g2
                &&& pool.verifying_key.gamma_g2 == verifying_key.gamma_g2
                &&& pool.verifying_key.delta_g2 == verifying_key.delta_g2
                &&& pool.verifying_key.ic@ == verifying_key.ic@
                &&& pool.vault_bump == old(ctx).vault_bump
                &&& pool.bump == old(ctx).pool_bump
                &&& tree.next_index == 0
                &&& tree.root@ == merkle_root(Seq::empty())
            },
            Err(e) => {
                &&& old(ctx).refusal(denomination, verifying_key) == Some(e)
                &&& *final(ctx) == *old(ctx)
                &&& e == if old(ctx).pool is Some || old(ctx).tree is Some {
                    RequestError::AccountInUse
                } else if denomination == 0 {
                    RequestError::Refused(ShieldedError::InvalidDenomination)
                } else {
                    RequestError::Refused(ShieldedError::MalformedInput)
                }
            },
        },
        result is Ok <==> {
            &&& old(ctx).pool is None
            &&& old(ctx).tree is None
            &&& denomination > 0
            &&& verifying_key.ic@.len() == NUM_IC_POINTS
        },
{
    if ctx.pool.is_some() || ctx.tree.is_some() {
        return Err(RequestError::AccountInUse);
    }
    if denomination == 0 {
        return Err(RequestError::Refused(ShieldedError::InvalidDenomination));
    }
    let key = match VerifyingKey::from_input(verifying_key) {
        Ok(key) => key,
        Err(e) => {
            return Err(RequestError::Refused(e));
        },
    };
    let blank = [0u8; 32];
    let mut tree = MerkleTree {
        next_index: 0,
        filled_subtrees: [blank; TREE_DEPTH],
        zeros: [blank; TREE_DEPTH],
        root: blank,
    };
    tree.init();
    let root = tree.current_root();
    let mut roots = [blank; ROOT_HISTORY_SIZE];
    roots[0] = root;
    assert(blank@ =~= zero_bytes(32));
    ctx.tree = Some(tree);
    ctx.pool = Some(
        Pool {
            authority: ctx.authority,
            denomination,
            next_leaf_index: 0,
            root_index: 0,
            current_root: root,
            roots,
            verifying_key: key,
            vault_bump: ctx.vault_bump,
            bump: ctx.pool_bump,
        },
    );
    proof {
        law_initialized_pool_is_empty(*old(ctx), *ctx, denomination, verifying_key);
    }
    Ok(())
}

/// Law: an initialization stores its terms. Each point of the key is kept under its
/// own name, and so are the authority, the denomination and the bumps; the cursor
/// stands on the first slot, which holds the root of the empty tree, and every other
/// slot holds zeros.
pub proof fn law_initialization_stores_its_terms(
    pre: Initialize,
    post: Initialize,
    denomination: u64,
    key: VerifyingKeyInput,
    i: int,
)
    requires
        post.is_initialization(pre, denomination, key),
        1 <= i < ROOT_HISTORY_SIZE,
    ensures
        post.authority == pre.authority,
        post.vault_bump == pre.vault_bump,
        post.pool_bump == pre.pool_bump,
        ({
            &&& post.pool matches Some(pool)
            &&& post.tree matches Some(tree)
            &&& pool.verifying_key.alpha_g1 == key.alpha_g1
            &&& pool.verifying_key.beta_g2 == key.beta_g2
            &&& pool.verifying_key.gamma_g2 == key.gamma_g2
            &&& pool.verifying_key.delta_g2 == key.delta_g2
            &&& pool.verifying_key.ic@ == key.ic@
            &&& pool.authority == pre.authority
            &&& pool.denomination == denomination
            &&& pool.vault_bump == pre.vault_bump
            &&& pool.bump == pre.pool_bump
            &&& pool.next_leaf_index == 0
            &&& pool.root_index == 0
            &&& pool.current_root@ == merkle_root(Seq::empty())
            &&& pool.roots@[0]@ == merkle_root(Seq::empty())
            &&& be_value(pool.roots@[i]@) == 0
            &&& tree.next_index == 0
            &&& tree.root@ == merkle_root(Seq::empty())
        }),
{
    let pool = post.pool->0;
    lemma_be_zero(pool.roots@[i]@);
}

/// Law: an initialization is refused where the pool or the tree exists already, else
/// where the denomination is zero, else where the key has not exactly one point more
/// than there are public inputs, and nowhere else.
pub proof fn law_initialization_refusals(
    accounts: Initialize,
    denomination: u64,
    key: VerifyingKeyInput,
)
    ensures
        ({
            let fresh = accounts.pool is None && accounts.tree is None;
            let refusal = accounts.refusal(denomination, key);
            &&& !fresh ==> refusal == Some(RequestError::AccountInUse)
            &&& fresh && denomination == 0 ==> refusal == Some(
                RequestError::Refused(ShieldedError::InvalidDenomination),
            )
            &&& fresh && denomination > 0 && key.ic@.len() != 4 + 1 ==> refusal == Some(
                RequestError::Refused(ShieldedError::MalformedInput),
            )
            &&& fresh && denomination > 0 && key.ic@.len() == 4 + 1 ==> refusal is None
        }),
{
}

/// Law: a pool that was just initialized holds no notes.
pub proof fn law_initialized_pool_is_empty(
    pre: Initialize,
    post: Initialize,
    denomination: u64,
    key: VerifyingKeyInput,
)
    requires
        denomination > 0,
        post.is_initialization(pre, denomination, key),
    ensures
        consistent(post.pool->0, post.tree->0, Seq::empty()),
{
    let none = Seq::<Seq<u8>>::empty();
    let pool = post.pool->0;
    assert(none.take(0) =~= none);
    assert forall|i: int|
        #![trigger pool.roots@[i]]
        0 <= i < ROOT_HISTORY_SIZE implies pool.roots@[i]@ == if pool.age(i) < 1 {
        merkle_root(none)
    } else {
        zero_bytes(32)
    } by {}
}

/// Law: a pool is initialized at most once. After an initialization, every other
/// one is refused, whatever it asks for.
pub proof fn law_initialized_once(
    pre: Initialize,
    post: Initialize,
    denomination: u64,
    key: VerifyingKeyInput,
    other_denomination: u64,
    other_key: VerifyingKeyInput,
)
    requires
        post.is_initialization(pre, denomination, key),
    ensures
        post.refusal(other_denomination, other_key) == Some(RequestError::AccountInUse),
{
}

impl Shield {
    /// `self` is `pre` after a deposit under `commitment`, and `deposit` is what
    /// the deposit brings about.
    pub open spec fn is_deposit(
        self,
        pre: Shield,
        commitment: [u8; 32],
        deposit: Deposit,
    ) -> bool {
        &&& pre.tree.next_index < MAX_LEAVES
        &&& self.tree.is_insertion(pre.tree, commitment@)
        &&& self.pool.next_leaf_index == self.tree.next_index
        &&& (Pool { next_leaf_index: pre.pool.next_leaf_index, ..self.pool }).is_push(
            pre.pool,
            self.tree.root,
        )
        &&& deposit.transfer == (Transfer {
            from: Party::Depositor,
            to: Party::Vault,
            lamports: pre.pool.denomination,
        })
        &&& deposit.event == (ShieldEvent {
            commitment,
            leaf_index: pre.tree.next_index as u64,
            new_root: self.tree.root,
        })
    }
}

/// Shield (deposit): inserts `commitment` as a new leaf of the Merkle tree. The
/// depositor pays the denomination into the vault.
///
/// `commitment` is the hash of the note's secret and nullifier, neither of which
/// is seen here.
pub fn shield(ctx: &mut Shield, commitment: [u8; 32]) -> (result: Result<Deposit, ShieldedError>)
    ensures
        match result {
            Ok(deposit) => {
                &&& final(ctx).is_deposit(*old(ctx), commitment, deposit)
                &&& old(ctx).tree.next_index < MAX_LEAVES
                &&& deposit.event.commitment == commitment
                &&& deposit.event.leaf_index == old(ctx).tree.next_index
                &&& deposit.event.new_root == final(ctx).tree.root
                &&& deposit.transfer.from == Party::Depositor
                &&& deposit.transfer.to == Party::Vault
                &&& deposit.transfer.lamports == old(ctx).pool.denomination
                &&& final(ctx).tree.next_index == old(ctx).tree.next_index + 1
                &&& final(ctx).pool.next_leaf_index == old(ctx).tree.next_index + 1
                &&& final(ctx).pool.current_root == final(ctx).tree.root
            },
            Err(e) => {
                &&& old(ctx).tree.next_index >= MAX_LEAVES
                &&& e == ShieldedError::TreeFull
                &&& *final(ctx) == *old(ctx)
            },
        },
        forall|leaves: Seq<Seq<u8>>| #[trigger]
            consistent(old(ctx).pool, old(ctx).tree, leaves) && result is Ok ==> consistent(
                final(ctx).pool,
                final(ctx).tree,
                leaves.push(commitment@),
            ),
        forall|leaves: Seq<Seq<u8>>| #[trigger]
            consistent(old(ctx).pool, old(ctx).tree, leaves) && result is Ok ==> {
                &&& result->Ok_0.event.leaf_index == leaves.len()
                &&& result->Ok_0.event.new_root@ == merkle_root(leaves.push(commitment@))
            },
{
    let leaf_index = match ctx.tree.insert(commitment) {
        Ok(index) => index,
        Err(e) => {
            return Err(e);
        },
    };
    let new_root = ctx.tree.current_root();
    ctx.pool.push_root(new_root);
    let ghost pushed = ctx.pool;
    ctx.pool.next_leaf_index = ctx.tree.next_index;
    let deposit = Deposit {
        transfer: Transfer {
            from: Party::Depositor,
            to: Party::Vault,
            lamports: ctx.pool.denomination,
        },
        event: ShieldEvent { commitment, leaf_index, new_root },
    };
    proof {
        assert((Pool { next_leaf_index: old(ctx).pool.next_leaf_index, ..ctx.pool }) == pushed);
        assert forall|leaves: Seq<Seq<u8>>| #[trigger]
            consistent(old(ctx).pool, old(ctx).tree, leaves) implies consistent(
            ctx.pool,
            ctx.tree,
            leaves.push(commitment@),
        ) by {
            law_deposit_keeps_consistency(*old(ctx), *ctx, commitment, deposit, leaves);
        }
    }
    Ok(deposit)
}

/// Law: a deposit into a pool that holds `leaves` gives a pool that holds
/// `leaves` followed by the commitment.
pub proof fn law_deposit_keeps_consistency(
    pre: Shield,
    post: Shield,
    commitment: [u8; 32],
    deposit: Deposit,
    leaves: Seq<Seq<u8>>,
)
    requires
        consistent(pre.pool, pre.tree, leaves),
        post.is_deposit(pre, commitment, deposit),
    ensures
        consistent(post.pool, post.tree, leaves.push(commitment@)),
{
    let all = leaves.push(commitment@);
    let pushed = Pool { next_leaf_index: pre.pool.next_leaf_index, ..post.pool };
    law_insertion_appends(pre.tree, post.tree, leaves, commitment@);
    law_push_tracks(pre.pool, pushed, root_history(leaves), post.tree.root);
    lemma_history_grows(leaves, commitment@);
    assert forall|i: int|
        #![trigger post.pool.roots@[i]]
        post.pool.age(i) == pushed.age(i) && post.pool.roots@[i] == pushed.roots@[i] by {}
}

/// Law: a deposit reports the leaf that it wrote. Into a pool that holds `leaves`, it
/// goes at the index that follows theirs; the event names that index, the commitment
/// that stands there, and the root to which the commitment's siblings lead from
/// there. The depositor pays the denomination, and the pool counts the leaf, takes
/// the root into its next slot and is otherwise the same.
pub proof fn law_deposit_reports_its_leaf(
    pre: Shield,
    post: Shield,
    commitment: [u8; 32],
    deposit: Deposit,
    leaves: Seq<Seq<u8>>,
    i: int,
)
    requires
        consistent(pre.pool, pre.tree, leaves),
        post.is_deposit(pre, commitment, deposit),
        0 <= i < ROOT_HISTORY_SIZE,
    ensures
        ({
            let all = leaves.push(commitment@);
            let event = deposit.event;
            &&& event.leaf_index == leaves.len()
            &&& event.commitment == commitment
            &&& all[event.leaf_index as int] == event.commitment@
            &&& climb(
                event.commitment@,
                event.leaf_index as nat,
                siblings(all, event.leaf_index as nat),
                TREE_DEPTH as nat,
            ) == event.new_root@
            &&& post.tree.root == event.new_root
            &&& event.new_root@ == merkle_root(all)
        }),
        deposit.transfer.from == Party::Depositor,
        deposit.transfer.to == Party::Vault,
        deposit.transfer.lamports == pre.pool.denomination,
        post.tree.next_index == leaves.len() + 1,
        post.pool.next_leaf_index == leaves.len() + 1,
        post.pool.current_root == deposit.event.new_root,
        post.pool.root_index == (leaves.len() + 1) % 32,
        i == post.pool.root_index ==> post.pool.roots@[i] == deposit.event.new_root,
        i != post.pool.root_index ==> post.pool.roots@[i] == pre.pool.roots@[i],
        post.pool.authority == pre.pool.authority,
        post.pool.denomination == pre.pool.denomination,
        post.pool.verifying_key == pre.pool.verifying_key,
        post.pool.vault_bump == pre.pool.vault_bump,
        post.pool.bump == pre.pool.bump,
{
    let all = leaves.push(commitment@);
    law_deposit_keeps_consistency(pre, post, commitment, deposit, leaves);
    law_leaf_is_under_root(post.tree, all, leaves.len());
    assert(all[leaves.len() as int] == commitment@);
    let pushed = Pool { next_leaf_index: pre.pool.next_leaf_index, ..post.pool };
    law_push_writes_one_slot(pre.pool, pushed, post.tree.root, i);
}

/// Law: a deposit goes where the tree says, whatever the tree holds: the event names
/// the tree's next index, and the tree counts one leaf more.
pub proof fn law_deposit_takes_the_next_index(
    pre: Shield,
    post: Shield,
    commitment: [u8; 32],
    deposit: Deposit,
)
    requires
        post.is_deposit(pre, commitment, deposit),
    ensures
        pre.tree.next_index < MAX_LEAVES,
        deposit.event.leaf_index == pre.tree.next_index,
        deposit.event.commitment == commitment,
        deposit.event.new_root == post.tree.root,
        deposit.transfer.from == Party::Depositor,
        deposit.transfer.to == Party::Vault,
        deposit.transfer.lamports == pre.pool.denomination,
        post.tree.is_insertion(pre.tree, commitment@),
        post.tree.next_index == pre.tree.next_index + 1,
        post.pool.next_leaf_index == pre.tree.next_index + 1,
        post.pool.current_root == post.tree.root,
{
}

/// Law: a root is known exactly if it is that of the tree as it is or as it was
/// up to `ROOT_HISTORY_SIZE - 1` deposits ago, and is not all zero.
pub proof fn law_recent_roots_are_known(
    pool: Pool,
    tree: MerkleTree,
    leaves: Seq<Seq<u8>>,
    root: Seq<u8>,
)
    requires
        consistent(pool, tree, leaves),
    ensures
        pool.knows(root) <==> {
            &&& root != zero_bytes(32)
            &&& exists|n: int|
                leaves.len() - ROOT_HISTORY_SIZE < n <= leaves.len() && 0 <= n && root
                    == merkle_root(#[trigger] leaves.take(n))
        },
        tree.root@ == merkle_root(leaves),
        pool.current_root == tree.root,
{
    let history = root_history(leaves);
    law_known_roots(pool, history, root);
    let count = leaves.len() as int;
    assert(leaves.take(count) =~= leaves);
    assert(history.last() == merkle_root(leaves));
    assert(pool.current_root =~= tree.root);
    if exists|n: int|
        history.len() - ROOT_HISTORY_SIZE <= n < history.len() && 0 <= n
            && #[trigger] history[n] == root {
        let n = choose|n: int|
            history.len() - ROOT_HISTORY_SIZE <= n < history.len() && 0 <= n
                && #[trigger] history[n] == root;
        assert(root == merkle_root(leaves.take(n)));
    }
    if exists|n: int|
        count - ROOT_HISTORY_SIZE < n <= count && 0 <= n && root == merkle_root(
            #[trigger] leaves.take(n),
        ) {
        let n = choose|n: int|
            count - ROOT_HISTORY_SIZE < n <= count && 0 <= n && root == merkle_root(
                #[trigger] leaves.take(n),
            );
        assert(history[n] == root);
    }
}

/// A deposit adds one root to the history.
proof fn lemma_history_grows(leaves: Seq<Seq<u8>>, leaf: Seq<u8>)
    ensures
        root_history(leaves.push(leaf)) == root_history(leaves).push(
            merkle_root(leaves.push(leaf)),
        ),
{
    let all = leaves.push(leaf);
    assert(all.take(all.len() as int) =~= all);
    assert forall|n: int| 0 <= n <= leaves.len() implies #[trigger] all.take(n) == leaves.take(
        n,
    ) by {
        assert(all.take(n) =~= leaves.take(n));
    }
    assert(root_history(all) =~= root_history(leaves).push(merkle_root(all)));
}

/// The transfers of a withdrawal: the recipient gets the denomination less the
/// fee, the relayer the fee, if there is one.
pub open spec fn payments(denomination: u64, fee: u64) -> Seq<Transfer> {
    let payout = Transfer {
        from: Party::Vault,
        to: Party::Recipient,
        lamports: (denomination - fee) as u64,
    };
    if fee > 0 {
        seq![payout, Transfer { from: Party::Vault, to: Party::Relayer, lamports: fee }]
    } else {
        seq![payout]
    }
}

/// The sum of what `party` receives by `transfers`.
pub open spec fn received(transfers: Seq<Transfer>, party: Party) -> int
    decreases transfers.len(),
{
    if transfers.len() == 0 {
        0
    } else {
        let last = transfers.last();
        received(transfers.drop_last(), party) + if last.to == party {
            last.lamports as int
        } else {
            0
        }
    }
}

/// Law: of a withdrawal the relayer receives exactly the fee and the recipient
/// exactly the rest of the denomination. Nobody else receives anything, and all of
/// it comes from the vault. The recipient is paid first, and there is no transfer of
/// nothing to the relayer.
pub proof fn law_fee_goes_to_the_relayer(denomination: u64, fee: u64)
    requires
        fee <= denomination,
    ensures
        ({
            let transfers = payments(denomination, fee);
            &&& received(transfers, Party::Relayer) == fee
            &&& received(transfers, Party::Recipient) == denomination - fee
            &&& received(transfers, Party::Depositor) == 0
            &&& received(transfers, Party::Vault) == 0
            &&& forall|i: int|
                0 <= i < transfers.len() ==> #[trigger] transfers[i].from == Party::Vault
            &&& transfers.len() == if fee == 0 {
                1int
            } else {
                2
            }
            &&& transfers[0].to == Party::Recipient
        }),
{
    reveal_with_fuel(received, 3);
    let all = payments(denomination, fee);
    if fee > 0 {
        assert(all.drop_last() =~= seq![all[0]]);
        assert(all.drop_last().drop_last() =~= Seq::<Transfer>::empty());
    } else {
        assert(all.drop_last() =~= Seq::<Transfer>::empty());
    }
}

/// Law: a withdrawal pays the fee to the relayer and the rest of the denomination to
/// the recipient, marks the nullifier as spent under its own hash, tells of all three
/// in its event, and leaves the pool and the recipient as they are.
pub proof fn law_withdrawal_pays_and_records(
    pre: Unshield,
    post: Unshield,
    nullifier_hash: [u8; 32],
    fee: u64,
    withdrawal: Withdrawal,
)
    requires
        fee <= pre.pool.denomination,
        post.is_withdrawal(pre, nullifier_hash, fee, withdrawal),
    ensures
        received(withdrawal.transfers@, Party::Relayer) == fee,
        received(withdrawal.transfers@, Party::Recipient) == pre.pool.denomination - fee,
        received(withdrawal.transfers@, Party::Depositor) == 0,
        received(withdrawal.transfers@, Party::Vault) == 0,
        forall|i: int|
            0 <= i < withdrawal.transfers@.len() ==> #[trigger] withdrawal.transfers@[i].from
                == Party::Vault,
        post.nullifier matches Some(record) && record.hash == nullifier_hash && record.spent,
        post.pool == pre.pool,
        post.recipient == pre.recipient,
        withdrawal.event.nullifier_hash == nullifier_hash,
        withdrawal.event.recipient == pre.recipient,
        withdrawal.event.fee == fee,
{
    law_fee_goes_to_the_relayer(pre.pool.denomination, fee);
}

/// Law: a request is accepted exactly if its note is not spent, its fee leaves
/// something of the denomination, its root is not zero and stands in a slot of the
/// ring buffer, its nullifier hash is below the scalar field order, and the stored
/// key finds the proof valid for the field elements of the root and of the nullifier
/// hash and for the masked digests of the recipient and of the fee, in this order.
pub proof fn law_request_is_accepted(
    accounts: Unshield,
    attempt: Proof,
    root: [u8; 32],
    nullifier_hash: Seq<u8>,
    fee: u64,
)
    ensures
        accounts.refusal(attempt, root@, nullifier_hash, fee) is None <==> {
            &&& accounts.nullifier is None
            &&& fee < accounts.pool.denomination
            &&& be_value(root@) != 0
            &&& exists|i: int|
                0 <= i < ROOT_HISTORY_SIZE && #[trigger] accounts.pool.roots@[i] == root
            &&& be_value(nullifier_hash) < scalar_modulus()
            &&& accounts.pool.verifying_key.verdict(
                attempt,
                seq![
                    field_element(root@),
                    field_element(nullifier_hash),
                    masked(keccak256_digest(accounts.recipient@)),
                    masked(keccak256_digest(be_bytes(fee as nat, 8))),
                ],
            ) == Some(true)
        },
{
    law_known_root_is_in_a_slot(accounts.pool, root);
    lemma_request_inputs(accounts.recipient@, root@, nullifier_hash, fee);
}

/// Law: a request that is not accepted is answered with the first thing that is
/// wrong with it: the note is spent, the fee is too high, the root is unknown, a
/// curve operation fails, the proof is invalid, the nullifier hash is not below the
/// scalar field order.
pub proof fn law_refusals_come_in_order(
    accounts: Unshield,
    attempt: Proof,
    root: [u8; 32],
    nullifier_hash: Seq<u8>,
    fee: u64,
)
    ensures
        ({
            let refusal = accounts.refusal(attempt, root@, nullifier_hash, fee);
            let early = accounts.early_refusal(root@, fee);
            let unspent = accounts.nullifier is None;
            let payable = unspent && fee < accounts.pool.denomination;
            let known = payable && be_value(root@) != 0 && exists|i: int|
                0 <= i < ROOT_HISTORY_SIZE && #[trigger] accounts.pool.roots@[i] == root;
            let verdict = accounts.pool.verifying_key.verdict(
                attempt,
                seq![
                    field_element(root@),
                    field_element(nullifier_hash),
                    masked(keccak256_digest(accounts.recipient@)),
                    masked(keccak256_digest(be_bytes(fee as nat, 8))),
                ],
            );
            &&& !unspent ==> early == Some(RequestError::AccountInUse)
            &&& unspent && !payable ==> early == Some(
                RequestError::Refused(ShieldedError::FeeTooHigh),
            )
            &&& payable && !known ==> early == Some(
                RequestError::Refused(ShieldedError::UnknownRoot),
            )
            &&& known ==> early is None
            &&& !known ==> refusal == early
            &&& known && verdict is None ==> refusal == Some(
                RequestError::Refused(ShieldedError::CurveOperationFailed),
            )
            &&& known && verdict == Some(false) ==> refusal == Some(
                RequestError::Refused(ShieldedError::InvalidProof),
            )
            &&& known && verdict == Some(true) && be_value(nullifier_hash) >= scalar_modulus()
                ==> refusal == Some(RequestError::Refused(ShieldedError::MalformedInput))
        }),
{
    law_known_root_is_in_a_slot(accounts.pool, root);
    lemma_request_inputs(accounts.recipient@, root@, nullifier_hash, fee);
}

/// The public inputs of a request, one by one.
proof fn lemma_request_inputs(recipient: Seq<u8>, root: Seq<u8>, nullifier_hash: Seq<u8>, fee: u64)
    ensures
        public_inputs(root, nullifier_hash, recipient, fee) == seq![
            field_element(root),
            field_element(nullifier_hash),
            masked(keccak256_digest(recipient)),
            masked(keccak256_digest(be_bytes(fee as nat, 8))),
        ],
{
    assert(public_inputs(root, nullifier_hash, recipient, fee) =~= seq![
        field_element(root),
        field_element(nullifier_hash),
        masked(keccak256_digest(recipient)),
        masked(keccak256_digest(be_bytes(fee as nat, 8))),
    ]);
}

impl Unshield {
    /// Why the request is refused before its proof is looked at, if it is.
    pub open spec fn early_refusal(self, root: Seq<u8>, fee: u64) -> Option<RequestError> {
        if self.nullifier is Some {
            Some(RequestError::AccountInUse)
        } else if fee >= self.pool.denomination {
            Some(RequestError::Refused(ShieldedError::FeeTooHigh))
        } else if !self.pool.knows(root) {
            Some(RequestError::Refused(ShieldedError::UnknownRoot))
        } else {
            None
        }
    }

    /// What the verification of the proof says, against the public inputs of the
    /// request.
    pub open spec fn proof_verdict(
        self,
        proof: Proof,
        root: Seq<u8>,
        nullifier_hash: Seq<u8>,
        fee: u64,
    ) -> Option<bool> {
        self.pool.verifying_key.verdict(
            proof,
            public_inputs(root, nullifier_hash, self.recipient@, fee),
        )
    }

    /// Why the request is refused, if it is.
    pub open spec fn refusal(
        self,
        proof: Proof,
        root: Seq<u8>,
        nullifier_hash: Seq<u8>,
        fee: u64,
    ) -> Option<RequestError> {
        match self.early_refusal(root, fee) {
            Some(e) => Some(e),
            None => match self.proof_verdict(proof, root, nullifier_hash, fee) {
                None => Some(RequestError::Refused(ShieldedError::CurveOperationFailed)),
                Some(false) => Some(RequestError::Refused(ShieldedError::InvalidProof)),
                Some(true) => if be_value(nullifier_hash) >= scalar_modulus() {
                    Some(RequestError::Refused(ShieldedError::MalformedInput))
                } else {
                    None
                },
            },
        }
    }

    /// `self` is `pre` after a withdrawal under `nullifier_hash`, and `withdrawal`
    /// pays the note out and tells of it.
    pub open spec fn is_withdrawal(
        self,
        pre: Unshield,
        nullifier_hash: [u8; 32],
        fee: u64,
        withdrawal: Withdrawal,
    ) -> bool {
        &&& self == (Unshield {
            nullifier: Some(Nullifier { hash: nullifier_hash, spent: true }),
            ..pre
        })
        &&& withdrawal.transfers@ == payments(pre.pool.denomination, fee)
        &&& withdrawal.event == (UnshieldEvent { nullifier_hash, recipient: pre.recipient, fee })
    }

    /// Refuses a request that no proof can save: the note is already spent, the
    /// fee takes the whole denomination, or the root is unknown or expired.
    pub fn check_request(&self, root: &[u8; 32], fee: u64) -> (result: Result<(), RequestError>)
        ensures
            result == match self.early_refusal(root@, fee) {
                Some(e) => Err::<(), RequestError>(e),
                None => Ok(()),
            },
            result == if self.nullifier is Some {
                Err::<(), RequestError>(RequestError::AccountInUse)
            } else if fee >= self.pool.denomination {
                Err(RequestError::Refused(ShieldedError::FeeTooHigh))
            } else if !self.pool.knows(root@) {
                Err(RequestError::Refused(ShieldedError::UnknownRoot))
            } else {
                Ok(())
            },
    {
        if self.nullifier.is_some() {
            return Err(RequestError::AccountInUse);
        }
        if fee >= self.pool.denomination {
            return Err(RequestError::Refused(ShieldedError::FeeTooHigh));
        }
        if !self.pool.is_known_root(root) {
            return Err(RequestError::Refused(ShieldedError::UnknownRoot));
        }
        Ok(())
    }

    /// Records the nullifier and pays the note out, given whether the proof is
    /// valid.
    pub fn settle(&mut self, valid: bool, nullifier_hash: [u8; 32], fee: u64) -> (result: Result<
        Withdrawal,
        RequestError,
    >)
        ensures
            match result {
                Ok(withdrawal) => {
                    &&& valid
                    &&& fee <= old(self).pool.denomination
                    &&& final(self).is_withdrawal(*old(self), nullifier_hash, fee, withdrawal)
                    &&& received(withdrawal.transfers@, Party::Relayer) == fee
                    &&& received(withdrawal.transfers@, Party::Recipient)
                        == old(self).pool.denomination - fee
                    &&& final(self).nullifier == Some(
                        (Nullifier { hash: nullifier_hash, spent: true }),
                    )
                    &&& final(self).pool == old(self).pool
                    &&& final(self).recipient == old(self).recipient
                    &&& withdrawal.event.nullifier_hash == nullifier_hash
                    &&& withdrawal.event.recipient == old(self).recipient
                    &&& withdrawal.event.fee == fee
                },
                Err(e) => {
                    &&& *final(self) == *old(self)
                    &&& if valid {
                        &&& fee > old(self).pool.denomination
                        &&& e == RequestError::Refused(ShieldedError::FeeTooHigh)
                    } else {
                        e == RequestError::Refused(ShieldedError::InvalidProof)
                    }
                },
            },
    {
        if !valid {
            return Err(RequestError::Refused(ShieldedError::InvalidProof));
        }
        let payout: u64 = match self.pool.denomination.checked_sub(fee) {
            Some(payout) => payout,
            None => {
                return Err(RequestError::Refused(ShieldedError::FeeTooHigh));
            },
        };
        let mut transfers: Vec<Transfer> = Vec::new();
        transfers.push(Transfer { from: Party::Vault, to: Party::Recipient, lamports: payout });
        if fee > 0 {
            transfers.push(Transfer { from: Party::Vault, to: Party::Relayer, lamports: fee });
        }
        proof {
            assert(transfers@ =~= payments(self.pool.denomination, fee));
            law_fee_goes_to_the_relayer(self.pool.denomination, fee);
        }
        self.nullifier = Some(Nullifier { hash: nullifier_hash, spent: true });
        Ok(
            Withdrawal {
                transfers,
                event: UnshieldEvent { nullifier_hash, recipient: self.recipient, fee },
            },
        )
    }
}

/// Unshield (withdraw): verifies a Groth16 proof that the caller owns a note in
/// the tree, then pays the denomination out and burns the nullifier.
///
/// The proof binds `root`, which must be one of the recent roots; the
/// `nullifier_hash`, which is recorded so that the note cannot be spent twice;
/// and the recipient and the `fee`, so that a relayer cannot redirect funds. A
/// proof that verifies is still refused where the nullifier hash is not below the
/// scalar field order: each larger number is another encoding of a smaller one,
/// and would be the same nullifier again.
pub fn unshield(
    ctx: &mut Unshield,
    proof: &Proof,
    root: [u8; 32],
    nullifier_hash: [u8; 32],
    fee: u64,
) -> (result: Result<Withdrawal, RequestError>)
    ensures
        match result {
            Ok(withdrawal) => {
                &&& old(ctx).refusal(*proof, root@, nullifier_hash@, fee) is None
                &&& final(ctx).is_withdrawal(*old(ctx), nullifier_hash, fee, withdrawal)
                &&& old(ctx).nullifier is None
                &&& fee < old(ctx).pool.denomination
                &&& be_value(root@) != 0
                &&& exists|i: int|
                    0 <= i < ROOT_HISTORY_SIZE && #[trigger] old(ctx).pool.roots@[i] == root
                &&& be_value(nullifier_hash@) < scalar_modulus()
                &&& old(ctx).pool.verifying_key.verdict(
                    *proof,
                    seq![
                        field_element(root@),
                        field_element(nullifier_hash@),
                        masked(keccak256_digest(old(ctx).recipient@)),
                        masked(keccak256_digest(be_bytes(fee as nat, 8))),
                    ],
                ) == Some(true)
                &&& received(withdrawal.transfers@, Party::Relayer) == fee
                &&& received(withdrawal.transfers@, Party::Recipient)
                    == old(ctx).pool.denomination - fee
                &&& final(ctx).nullifier == Some(
                    (Nullifier { hash: nullifier_hash, spent: true }),
                )
                &&& final(ctx).pool == old(ctx).pool
                &&& final(ctx).recipient == old(ctx).recipient
                &&& withdrawal.event.nullifier_hash == nullifier_hash
                &&& withdrawal.event.recipient == old(ctx).recipient
                &&& withdrawal.event.fee == fee
            },
            Err(e) => {
                &&& old(ctx).refusal(*proof, root@, nullifier_hash@, fee) == Some(e)
                &&& *final(ctx) == *old(ctx)
            },
        },
{
    match ctx.check_request(&root, fee) {
        Ok(_) => {},
        Err(e) => {
            return Err(e);
        },
    }
    proof {
        law_request_is_accepted(*ctx, *proof, root, nullifier_hash@, fee);
    }
    let inputs = build_public_inputs(&root, &nullifier_hash, &ctx.recipient, fee);
    let valid = match ctx.pool.verifying_key.verify(proof, &inputs) {
        Ok(valid) => valid,
        Err(e) => {
            return Err(RequestError::Refused(e));
        },
    };
    if valid && !is_below(&nullifier_hash, &BN254_SCALAR_MODULUS) {
        return Err(RequestError::Refused(ShieldedError::MalformedInput));
    }
    ctx.settle(valid, nullifier_hash, fee)
}

} // verus!
