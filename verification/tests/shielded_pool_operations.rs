use shielded_pool::errors::ShieldedError;
use shielded_pool::groth16::{Proof, VerifyingKeyInput, BN254_SCALAR_MODULUS};
use shielded_pool::merkle::MAX_LEAVES;
use shielded_pool::shielded_pool::{
    initialize, shield, unshield, Initialize, Party, RequestError, Shield, ShieldEvent, Transfer,
    Unshield, UnshieldEvent,
};
use shielded_pool::state::{Nullifier, Pool, ROOT_HISTORY_SIZE};

const G1: &str = "0000000000000000000000000000000000000000000000000000000000000001\
0000000000000000000000000000000000000000000000000000000000000002";
const G1_TIMES_2: &str = "030644e72e131a029b85045b68181585d97816a916871ca8d3c208c16d87cfd3\
15ed738c0e0a7c92e7845f96b2ae9c0a68a6a449e3538fc7ff3ebf7a5a18a2c4";
const G1_TIMES_3: &str = "0769bf9ac56bea3ff40232bcb1b6bd159315d84715b8e679f2d355961915abf0\
2ab799bee0489429554fdb7c8d086475319e63b40b9c5b57cdf1ff3dd9fe2261";
const G1_TIMES_4: &str = "06a7b64af8f414bcbeef455b1da5208c9b592b83ee6599824caa6d2ee9141a76\
08e74e438cee31ac104ce59b94e45fe98a97d8f8a6e75664ce88ef5a41e72fbc";
const G1_TIMES_5: &str = "17c139df0efee0f766bc0204762b774362e4ded88953a39ce849a8a7fa163fa9\
01e0559bacb160664764a357af8a9fe70baa9258e0b959273ffc5718c6d4cc7c";
const G2: &str = "198e9393920d483a7260bfb731fb5d25f1aa493335a9e71297e485b7aef312c2\
1800deef121f1e76426a00665e5c4479674322d4f75edadd46debd5cd992f6ed\
090689d0585ff075ec9e99ad690c3395bc4b313370b38ef355acdadcd122975b\
12c85ea5db8c6deb4aab71808dcb408fe3d1e7690c43d37b4ce6cc0166fa7daa";

/// `A` for the root after one deposit of `[1; 32]`, nullifier hash `[9; 32]`,
/// recipient `[7; 32]` and fee 2, under the key of `key()`.
const A_FOR_FEE_2: &str = "1130853636c91ad4ba7479412aa0cff608333ca51885f25d41c2dc921506706f\
1f75f1f2d91c1ca7517d12d228d4f2631bc756ed3269368b7c19cfc39fe9ca67";
/// The same without a fee.
const A_FOR_FEE_0: &str = "1bbc0b229fcc0fbc1bd790a1d6c335e249077b5b0d2bd24d14f895c1171b6faf\
1068266178d03ff06f959cc22848025fcc395b2ff8a284ff9a8d0e45ab076de1";
/// The same without a fee, with the largest nullifier hash.
const A_FOR_LARGEST: &str = "0cd9428462130b03c5170ba994d8e5835677b1a5f2dd2500fa8fba52da932630\
098f556fbb306e0b8073e699c627a8e9b5871113c143b74ac7692ac1b0cc79ee";
/// The same without a fee, with the nullifier hash zero.
const A_FOR_ZERO: &str = "1807a3959b854af84a5b65f8ff1412ebe3d478b7b42ddf09ee8484cbed16e1b2\
02c1fa63d909c2797009d51a9fca5286468fa3679975689469e017aded27bacf";

const DENOMINATION: u64 = 1_000;

fn hex<const N: usize>(text: &str) -> [u8; N] {
    let mut out = [0u8; N];
    for (i, byte) in out.iter_mut().enumerate() {
        *byte = u8::from_str_radix(&text[2 * i..2 * i + 2], 16).unwrap();
    }
    out
}

fn key() -> VerifyingKeyInput {
    VerifyingKeyInput {
        alpha_g1: hex(G1),
        beta_g2: hex(G2),
        gamma_g2: hex(G2),
        delta_g2: hex(G2),
        ic: vec![
            hex(G1),
            hex(G1_TIMES_2),
            hex(G1_TIMES_3),
            hex(G1_TIMES_4),
            hex(G1_TIMES_5),
        ],
    }
}

fn accounts() -> Initialize {
    Initialize {
        authority: [42u8; 32],
        pool: None,
        tree: None,
        vault_bump: 254,
        pool_bump: 253,
    }
}

fn new_pool() -> Shield {
    let mut ctx = accounts();
    initialize(&mut ctx, DENOMINATION, key()).unwrap();
    Shield {
        pool: ctx.pool.unwrap(),
        tree: ctx.tree.unwrap(),
    }
}

fn pool_with_one_note() -> Pool {
    let mut ctx = new_pool();
    shield(&mut ctx, [1u8; 32]).unwrap();
    ctx.pool
}

fn withdrawal_accounts(pool: &Pool) -> Unshield {
    Unshield {
        pool: pool.clone(),
        nullifier: None,
        recipient: [7u8; 32],
    }
}

fn proof_with(a: &str) -> Proof {
    Proof {
        a: hex(a),
        b: hex(G2),
        c: [0u8; 64],
    }
}

#[test]
fn initialize_sets_the_pool_up() {
    let mut ctx = accounts();
    assert_eq!(initialize(&mut ctx, DENOMINATION, key()), Ok(()));
    let pool = ctx.pool.clone().unwrap();
    let tree = ctx.tree.clone().unwrap();
    assert_eq!(pool.authority, [42u8; 32]);
    assert_eq!(pool.denomination, DENOMINATION);
    assert_eq!(pool.next_leaf_index, 0);
    assert_eq!(pool.root_index, 0);
    assert_eq!(pool.vault_bump, 254);
    assert_eq!(pool.bump, 253);
    assert_eq!(pool.verifying_key.ic.to_vec(), key().ic);
    assert_eq!(
        pool.current_root,
        hex::<32>("3639729e3e3f0bd40b84a1923ff67659b84e75d3185686b8ff9e3891c872eac7")
    );
    assert_eq!(tree.root, pool.current_root);
    assert_eq!(pool.roots[0], pool.current_root);
    for i in 1..ROOT_HISTORY_SIZE {
        assert_eq!(pool.roots[i], [0u8; 32]);
    }
}

#[test]
fn initialize_refuses_a_zero_denomination() {
    let mut ctx = accounts();
    let mut short = key();
    short.ic.pop();
    assert_eq!(
        initialize(&mut ctx, 0, short),
        Err(RequestError::Refused(ShieldedError::InvalidDenomination))
    );
    assert_eq!(ctx, accounts());
}

#[test]
fn initialize_refuses_a_malformed_key() {
    let mut ctx = accounts();
    let mut short = key();
    short.ic.pop();
    assert_eq!(
        initialize(&mut ctx, 1, short),
        Err(RequestError::Refused(ShieldedError::MalformedInput))
    );
    assert_eq!(ctx, accounts());
}

#[test]
fn initialize_happens_once() {
    let mut ctx = accounts();
    initialize(&mut ctx, DENOMINATION, key()).unwrap();
    let before = ctx.clone();
    assert_eq!(
        initialize(&mut ctx, 0, key()),
        Err(RequestError::AccountInUse)
    );
    assert_eq!(
        initialize(&mut ctx, DENOMINATION, key()),
        Err(RequestError::AccountInUse)
    );
    assert_eq!(ctx, before);
}

#[test]
fn shield_inserts_and_records_the_root() {
    let mut ctx = new_pool();
    let deposit = shield(&mut ctx, [1u8; 32]).unwrap();
    let root = hex::<32>("52d912ba075518f2a93c4208c53b183e3b39368958238a09775bb503fa6ffe55");
    assert_eq!(
        deposit.transfer,
        Transfer {
            from: Party::Depositor,
            to: Party::Vault,
            lamports: DENOMINATION,
        }
    );
    assert_eq!(
        deposit.event,
        ShieldEvent {
            commitment: [1u8; 32],
            leaf_index: 0,
            new_root: root,
        }
    );
    assert_eq!(ctx.pool.next_leaf_index, 1);
    assert_eq!(ctx.pool.root_index, 1);
    assert_eq!(ctx.pool.current_root, root);
    assert_eq!(ctx.pool.roots[1], root);
    assert_eq!(ctx.tree.root, root);
    assert_eq!(shield(&mut ctx, [2u8; 32]).unwrap().event.leaf_index, 1);
}

#[test]
fn shield_refuses_when_the_tree_is_full() {
    let mut ctx = new_pool();
    ctx.tree.next_index = MAX_LEAVES as u32;
    let before = ctx.clone();
    assert_eq!(shield(&mut ctx, [1u8; 32]), Err(ShieldedError::TreeFull));
    assert_eq!(ctx, before);
}

#[test]
fn recent_roots_stay_known_and_expire() {
    let mut ctx = new_pool();
    let mut history: Vec<[u8; 32]> = vec![ctx.tree.root];
    for i in 0..70u8 {
        shield(&mut ctx, [i; 32]).unwrap();
        history.push(ctx.tree.root);
        for (n, root) in history.iter().enumerate() {
            let recent = n + ROOT_HISTORY_SIZE >= history.len();
            assert_eq!(ctx.pool.is_known_root(root), recent);
        }
        let cursor = ctx.pool.root_index as usize;
        assert_eq!(ctx.pool.current_root, ctx.pool.roots[cursor]);
    }
}

#[test]
fn zero_root_is_never_known() {
    let ctx = new_pool();
    assert_eq!(ctx.pool.roots[5], [0u8; 32]);
    assert!(!ctx.pool.is_known_root(&[0u8; 32]));
    assert!(!ctx.pool.is_known_root(&[1u8; 32]));
}

#[test]
fn push_root_wraps_the_cursor() {
    let mut pool = new_pool().pool;
    pool.root_index = 31;
    pool.push_root([5u8; 32]);
    assert_eq!(pool.root_index, 0);
    assert_eq!(pool.roots[0], [5u8; 32]);
    assert_eq!(pool.current_root, [5u8; 32]);
    pool.root_index = 255;
    pool.push_root([6u8; 32]);
    assert_eq!(pool.root_index, 0);
    assert_eq!(pool.roots[0], [6u8; 32]);
}

#[test]
fn unshield_pays_recipient_and_relayer() {
    let pool = pool_with_one_note();
    let mut ctx = withdrawal_accounts(&pool);
    let withdrawal =
        unshield(&mut ctx, &proof_with(A_FOR_FEE_2), pool.current_root, [9u8; 32], 2).unwrap();
    assert_eq!(
        withdrawal.transfers,
        vec![
            Transfer {
                from: Party::Vault,
                to: Party::Recipient,
                lamports: DENOMINATION - 2,
            },
            Transfer {
                from: Party::Vault,
                to: Party::Relayer,
                lamports: 2,
            },
        ]
    );
    assert_eq!(
        withdrawal.event,
        UnshieldEvent {
            nullifier_hash: [9u8; 32],
            recipient: [7u8; 32],
            fee: 2,
        }
    );
    assert_eq!(
        ctx.nullifier,
        Some(Nullifier {
            hash: [9u8; 32],
            spent: true,
        })
    );
    assert_eq!(ctx.pool, pool);
}

#[test]
fn unshield_without_a_fee_pays_once() {
    let pool = pool_with_one_note();
    let mut ctx = withdrawal_accounts(&pool);
    let withdrawal =
        unshield(&mut ctx, &proof_with(A_FOR_FEE_0), pool.current_root, [9u8; 32], 0).unwrap();
    assert_eq!(
        withdrawal.transfers,
        vec![Transfer {
            from: Party::Vault,
            to: Party::Recipient,
            lamports: DENOMINATION,
        }]
    );
}

#[test]
fn unshield_refuses_a_spent_note() {
    let pool = pool_with_one_note();
    let mut ctx = withdrawal_accounts(&pool);
    unshield(&mut ctx, &proof_with(A_FOR_FEE_2), pool.current_root, [9u8; 32], 2).unwrap();
    let before = ctx.clone();
    assert_eq!(
        unshield(&mut ctx, &proof_with(A_FOR_FEE_2), pool.current_root, [9u8; 32], 2),
        Err(RequestError::AccountInUse)
    );
    assert_eq!(
        unshield(&mut ctx, &proof_with(G1), [0u8; 32], [9u8; 32], u64::MAX),
        Err(RequestError::AccountInUse)
    );
    assert_eq!(ctx, before);
}

#[test]
fn unshield_refuses_another_encoding_of_a_spent_nullifier() {
    let pool = pool_with_one_note();
    let mut ctx = withdrawal_accounts(&pool);
    unshield(&mut ctx, &proof_with(A_FOR_FEE_2), pool.current_root, [9u8; 32], 2).unwrap();
    // [9; 32] plus the order of the scalar field. No record is kept under it.
    let again = hex::<32>("396d577bea3aa932c1594ebf8a8a6166313cf15182c2799a4ceafe9cf909090a");
    let mut ctx = withdrawal_accounts(&pool);
    let before = ctx.clone();
    assert_eq!(
        unshield(&mut ctx, &proof_with(A_FOR_FEE_2), pool.current_root, again, 2),
        Err(RequestError::Refused(ShieldedError::MalformedInput))
    );
    assert_eq!(ctx, before);
}

#[test]
fn unshield_takes_nullifier_hashes_below_the_scalar_order() {
    let pool = pool_with_one_note();
    let root = pool.current_root;
    let mut largest = BN254_SCALAR_MODULUS;
    largest[31] = 0;
    let mut ctx = withdrawal_accounts(&pool);
    assert!(unshield(&mut ctx, &proof_with(A_FOR_LARGEST), root, largest, 0).is_ok());
    assert_eq!(ctx.nullifier.unwrap().hash, largest);
    // The order itself is another encoding of zero.
    let mut ctx = withdrawal_accounts(&pool);
    let before = ctx.clone();
    assert_eq!(
        unshield(&mut ctx, &proof_with(A_FOR_ZERO), root, BN254_SCALAR_MODULUS, 0),
        Err(RequestError::Refused(ShieldedError::MalformedInput))
    );
    assert_eq!(ctx, before);
    assert!(unshield(&mut ctx, &proof_with(A_FOR_ZERO), root, [0u8; 32], 0).is_ok());
}

#[test]
fn unshield_reports_on_the_proof_before_the_nullifier_hash() {
    let pool = pool_with_one_note();
    let root = pool.current_root;
    let mut ctx = withdrawal_accounts(&pool);
    let before = ctx.clone();
    let attempt = proof_with(A_FOR_LARGEST);
    let mut off = proof_with(A_FOR_ZERO);
    off.c = [1u8; 64];
    for hash in [BN254_SCALAR_MODULUS, [0xffu8; 32]] {
        assert_eq!(
            unshield(&mut ctx, &attempt, root, hash, 0),
            Err(RequestError::Refused(ShieldedError::InvalidProof))
        );
        assert_eq!(
            unshield(&mut ctx, &off, root, hash, 0),
            Err(RequestError::Refused(ShieldedError::CurveOperationFailed))
        );
        assert_eq!(
            unshield(&mut ctx, &attempt, [3u8; 32], hash, 0),
            Err(RequestError::Refused(ShieldedError::UnknownRoot))
        );
    }
    assert_eq!(ctx, before);
}

#[test]
fn unshield_binds_every_public_input() {
    let pool = pool_with_one_note();
    let invalid = Err(RequestError::Refused(ShieldedError::InvalidProof));
    let mut ctx = withdrawal_accounts(&pool);
    let before = ctx.clone();
    let root = pool.current_root;
    assert_eq!(
        unshield(&mut ctx, &proof_with(A_FOR_FEE_2), pool.roots[0], [9u8; 32], 2),
        invalid
    );
    assert_eq!(
        unshield(&mut ctx, &proof_with(A_FOR_FEE_2), root, [8u8; 32], 2),
        invalid
    );
    assert_eq!(
        unshield(&mut ctx, &proof_with(A_FOR_FEE_2), root, [9u8; 32], 3),
        invalid
    );
    assert_eq!(ctx, before);
    ctx.recipient = [6u8; 32];
    assert_eq!(
        unshield(&mut ctx, &proof_with(A_FOR_FEE_2), root, [9u8; 32], 2),
        invalid
    );
    assert_eq!(ctx.nullifier, None);
}

#[test]
fn unshield_refuses_a_fee_of_the_denomination() {
    let pool = pool_with_one_note();
    let mut ctx = withdrawal_accounts(&pool);
    for fee in [DENOMINATION, DENOMINATION + 1, u64::MAX] {
        assert_eq!(
            unshield(&mut ctx, &proof_with(A_FOR_FEE_2), [0u8; 32], [9u8; 32], fee),
            Err(RequestError::Refused(ShieldedError::FeeTooHigh))
        );
    }
}

#[test]
fn unshield_refuses_an_unknown_root() {
    let pool = pool_with_one_note();
    let mut ctx = withdrawal_accounts(&pool);
    for root in [[0u8; 32], [3u8; 32]] {
        assert_eq!(
            unshield(&mut ctx, &proof_with(A_FOR_FEE_2), root, [9u8; 32], 2),
            Err(RequestError::Refused(ShieldedError::UnknownRoot))
        );
    }
}

#[test]
fn unshield_reports_a_failed_curve_operation() {
    let pool = pool_with_one_note();
    let mut ctx = withdrawal_accounts(&pool);
    let mut off = proof_with(A_FOR_FEE_2);
    off.c = [1u8; 64];
    assert_eq!(
        unshield(&mut ctx, &off, pool.current_root, [9u8; 32], 2),
        Err(RequestError::Refused(ShieldedError::CurveOperationFailed))
    );
    assert_eq!(ctx.nullifier, None);
}

#[test]
fn check_request_tests_in_order() {
    let pool = pool_with_one_note();
    let mut ctx = withdrawal_accounts(&pool);
    let root = pool.current_root;
    assert_eq!(ctx.check_request(&root, DENOMINATION - 1), Ok(()));
    assert_eq!(
        ctx.check_request(&[3u8; 32], DENOMINATION),
        Err(RequestError::Refused(ShieldedError::FeeTooHigh))
    );
    assert_eq!(
        ctx.check_request(&[3u8; 32], 0),
        Err(RequestError::Refused(ShieldedError::UnknownRoot))
    );
    ctx.nullifier = Some(Nullifier {
        hash: [9u8; 32],
        spent: true,
    });
    assert_eq!(
        ctx.check_request(&[3u8; 32], DENOMINATION),
        Err(RequestError::AccountInUse)
    );
}

#[test]
fn settle_follows_the_verdict() {
    let pool = pool_with_one_note();
    let mut ctx = withdrawal_accounts(&pool);
    assert_eq!(
        ctx.settle(false, [9u8; 32], DENOMINATION + 1),
        Err(RequestError::Refused(ShieldedError::InvalidProof))
    );
    assert_eq!(
        ctx.settle(true, [9u8; 32], DENOMINATION + 1),
        Err(RequestError::Refused(ShieldedError::FeeTooHigh))
    );
    assert_eq!(ctx.nullifier, None);
    let withdrawal = ctx.settle(true, [9u8; 32], 1).unwrap();
    let total: u64 = withdrawal.transfers.iter().map(|t| t.lamports).sum();
    assert_eq!(total, DENOMINATION);
    assert_eq!(ctx.nullifier.unwrap().hash, [9u8; 32]);
}

#[test]
fn vault_balance_counts_the_unspent_notes() {
    let mut ctx = new_pool();
    let mut vault: u64 = 0;
    for i in 1..4u8 {
        vault += shield(&mut ctx, [i; 32]).unwrap().transfer.lamports;
    }
    assert_eq!(vault, 3 * DENOMINATION);
    // The root after the first deposit is still known.
    let root = ctx.pool.roots[1];
    let mut request = withdrawal_accounts(&ctx.pool);
    let paid = unshield(&mut request, &proof_with(A_FOR_FEE_2), root, [9u8; 32], 2).unwrap();
    for transfer in paid.transfers {
        assert_eq!(transfer.from, Party::Vault);
        vault -= transfer.lamports;
    }
    assert_eq!(vault, 2 * DENOMINATION);
    assert_eq!(request.pool.denomination, DENOMINATION);
}
