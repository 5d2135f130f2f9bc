use shielded_pool::bytes::{digest_eq, encode_u64, is_below, is_zero, join_bytes};
use shielded_pool::errors::ShieldedError;
use shielded_pool::groth16::{
    big_endian_sub, build_public_inputs, mask_digest, negate_g1, pairing_accepts,
    to_field_element, Proof, VerifyingKey, VerifyingKeyInput, BN254_FIELD_MODULUS,
};

const G1: &str = "0000000000000000000000000000000000000000000000000000000000000001\
0000000000000000000000000000000000000000000000000000000000000002";
const G1_TIMES_2: &str = "030644e72e131a029b85045b68181585d97816a916871ca8d3c208c16d87cfd3\
15ed738c0e0a7c92e7845f96b2ae9c0a68a6a449e3538fc7ff3ebf7a5a18a2c4";
const G1_TIMES_3: &str = "0769bf9ac56bea3ff40232bcb1b6bd159315d84715b8e679f2d355961915abf0\
2ab799bee0489429554fdb7c8d086475319e63b40b9c5b57cdf1ff3dd9fe2261";
const G1_TIMES_4: &str = "06a7b64af8f414bcbeef455b1da5208c9b592b83ee6599824caa6d2ee9141a76\
08e74e438cee31ac104ce59b94e45fe98a97d8f8a6e75664ce88ef5a41e72fbc";
const G2: &str = "198e9393920d483a7260bfb731fb5d25f1aa493335a9e71297e485b7aef312c2\
1800deef121f1e76426a00665e5c4479674322d4f75edadd46debd5cd992f6ed\
090689d0585ff075ec9e99ad690c3395bc4b313370b38ef355acdadcd122975b\
12c85ea5db8c6deb4aab71808dcb408fe3d1e7690c43d37b4ce6cc0166fa7daa";

fn hex<const N: usize>(text: &str) -> [u8; N] {
    let mut out = [0u8; N];
    for (i, byte) in out.iter_mut().enumerate() {
        *byte = u8::from_str_radix(&text[2 * i..2 * i + 2], 16).unwrap();
    }
    out
}

fn number(value: u8) -> [u8; 32] {
    let mut out = [0u8; 32];
    out[31] = value;
    out
}

/// A key under which the fee counts once and the other inputs not at all.
fn fee_key() -> VerifyingKeyInput {
    VerifyingKeyInput {
        alpha_g1: hex(G1),
        beta_g2: hex(G2),
        gamma_g2: hex(G2),
        delta_g2: hex(G2),
        ic: vec![[0u8; 64], [0u8; 64], [0u8; 64], [0u8; 64], hex(G1)],
    }
}

#[test]
fn sub_borrows_across_bytes() {
    let mut a = [0u8; 32];
    a[0] = 1;
    let mut expected = [0xffu8; 32];
    expected[0] = 0;
    assert_eq!(big_endian_sub(&a, &number(1)), expected);
    assert_eq!(big_endian_sub(&number(200), &number(13)), number(187));
    assert_eq!(big_endian_sub(&a, &a), [0u8; 32]);
}

#[test]
fn sub_wraps_below_zero() {
    assert_eq!(big_endian_sub(&number(0), &number(1)), [0xffu8; 32]);
}

#[test]
fn sub_takes_the_first_bytes_of_a_longer_slice() {
    let mut b: Vec<u8> = number(5).to_vec();
    b.push(99);
    assert_eq!(big_endian_sub(&number(7), &b), number(2));
}

#[test]
fn negation_is_the_complement_to_the_prime() {
    let negated = negate_g1(&hex::<64>(G1));
    assert_eq!(
        negated,
        hex::<64>(
            "0000000000000000000000000000000000000000000000000000000000000001\
30644e72e131a029b85045b68181585d97816a916871ca8d3c208c16d87cfd45"
        )
    );
}

#[test]
fn negation_leaves_a_zero_coordinate() {
    let mut point = [0u8; 64];
    point[5] = 3;
    assert_eq!(negate_g1(&point), point);
    assert_eq!(negate_g1(&[0u8; 64]), [0u8; 64]);
}

#[test]
fn negation_undoes_itself() {
    for text in [G1, G1_TIMES_2, G1_TIMES_3] {
        let point = hex::<64>(text);
        assert_ne!(negate_g1(&point), point);
        assert_eq!(negate_g1(&negate_g1(&point)), point);
    }
    assert_eq!(negate_g1(&negate_g1(&[0xffu8; 64])), [0xffu8; 64]);
    // The prime itself is the one coordinate that does not come back.
    let mut point = [0u8; 64];
    point[32..].copy_from_slice(&BN254_FIELD_MODULUS);
    assert_eq!(negate_g1(&point), [0u8; 64]);
}

#[test]
fn key_needs_five_points() {
    for len in [0usize, 4, 6] {
        let mut input = fee_key();
        input.ic = vec![[1u8; 64]; len];
        assert_eq!(
            VerifyingKey::from_input(input),
            Err(ShieldedError::MalformedInput)
        );
    }
}

#[test]
fn key_keeps_its_input() {
    let input = VerifyingKeyInput {
        alpha_g1: [1u8; 64],
        beta_g2: [2u8; 128],
        gamma_g2: [3u8; 128],
        delta_g2: [4u8; 128],
        ic: vec![[5u8; 64], [6u8; 64], [7u8; 64], [8u8; 64], [9u8; 64]],
    };
    let key = VerifyingKey::from_input(input).unwrap();
    assert_eq!(key.alpha_g1, [1u8; 64]);
    assert_eq!(key.beta_g2, [2u8; 128]);
    assert_eq!(key.gamma_g2, [3u8; 128]);
    assert_eq!(key.delta_g2, [4u8; 128]);
    assert_eq!(
        key.ic,
        [[5u8; 64], [6u8; 64], [7u8; 64], [8u8; 64], [9u8; 64]]
    );
}

#[test]
fn verify_accepts_only_the_bound_input() {
    let key = VerifyingKey::from_input(fee_key()).unwrap();
    // alpha and twice the point of the fee add up to three times G1.
    let proof = Proof {
        a: hex(G1_TIMES_3),
        b: hex(G2),
        c: [0u8; 64],
    };
    let inputs = [number(11), number(12), number(13), number(2)];
    assert_eq!(key.verify(&proof, &inputs), Ok(true));
    let other = [number(11), number(12), number(13), number(3)];
    assert_eq!(key.verify(&proof, &other), Ok(false));
}

#[test]
fn verify_counts_every_input_and_the_last_point() {
    let mut input = fee_key();
    input.ic = vec![hex(G1), hex(G1), hex(G1), hex(G1), hex(G1)];
    input.alpha_g1 = [0u8; 64];
    let key = VerifyingKey::from_input(input).unwrap();
    let proof = Proof {
        a: hex(G1_TIMES_4),
        b: hex(G2),
        c: hex(G1_TIMES_2),
    };
    // 1 + 1 of the inputs, and 2 of c.
    for i in 0..4 {
        let mut inputs = [[0u8; 32]; 4];
        inputs[i] = number(1);
        assert_eq!(key.verify(&proof, &inputs), Ok(true));
        inputs[i] = number(2);
        assert_eq!(key.verify(&proof, &inputs), Ok(false));
    }
}

#[test]
fn verify_fails_on_points_off_the_curve() {
    let mut off = [0u8; 64];
    off[31] = 1;
    off[63] = 1;
    let inputs = [number(1), number(1), number(1), number(2)];
    let proof = Proof {
        a: hex(G1_TIMES_3),
        b: hex(G2),
        c: [0u8; 64],
    };
    for i in 0..5 {
        let mut input = fee_key();
        input.ic[i] = off;
        let key = VerifyingKey::from_input(input).unwrap();
        assert_eq!(
            key.verify(&proof, &inputs),
            Err(ShieldedError::CurveOperationFailed)
        );
    }
    let key = VerifyingKey::from_input(fee_key()).unwrap();
    let mut bad = proof.clone();
    bad.c = off;
    assert_eq!(
        key.verify(&bad, &inputs),
        Err(ShieldedError::CurveOperationFailed)
    );
    let mut bad = proof.clone();
    bad.b[0] = 0x2a;
    assert_eq!(
        key.verify(&bad, &inputs),
        Err(ShieldedError::CurveOperationFailed)
    );
}

#[test]
fn pairing_input_lists_the_pairs_in_order() {
    let key = VerifyingKey {
        alpha_g1: [1u8; 64],
        beta_g2: [2u8; 128],
        gamma_g2: [3u8; 128],
        delta_g2: [4u8; 128],
        ic: [[0u8; 64]; 5],
    };
    let proof = Proof {
        a: hex(G1),
        b: [5u8; 128],
        c: [6u8; 64],
    };
    let mut expected: Vec<u8> = negate_g1(&hex::<64>(G1)).to_vec();
    expected.extend_from_slice(&[5u8; 128]);
    expected.extend_from_slice(&[1u8; 64]);
    expected.extend_from_slice(&[2u8; 128]);
    expected.extend_from_slice(&[7u8; 64]);
    expected.extend_from_slice(&[3u8; 128]);
    expected.extend_from_slice(&[6u8; 64]);
    expected.extend_from_slice(&[4u8; 128]);
    assert_eq!(key.pairing_input(&proof, &[7u8; 64]), expected);
}

#[test]
fn pairing_accepts_only_one() {
    assert!(pairing_accepts(&number(1)));
    assert!(!pairing_accepts(&number(0)));
    assert!(!pairing_accepts(&number(2)));
    let mut high = number(1);
    high[30] = 1;
    assert!(!pairing_accepts(&high));
}

#[test]
fn public_inputs_are_the_request() {
    let inputs = build_public_inputs(&[1u8; 32], &[2u8; 32], &[7u8; 32], 0x0102_0304_0506_0708);
    assert_eq!(inputs[0], [1u8; 32]);
    assert_eq!(inputs[1], [2u8; 32]);
    assert_eq!(
        inputs[2],
        hex::<32>("1b062064095a97578a0f0cf535dd321f48f102ebc87a8ca16dd4b4c5fc6c4da8")
    );
    assert_eq!(
        inputs[3],
        hex::<32>("1ec062278915ba5c3c3af6ebf470b5afc94fedadf39fe78eea427b9aa5df9692")
    );
}

#[test]
fn public_inputs_bind_the_request() {
    let base = build_public_inputs(&[1u8; 32], &[2u8; 32], &[3u8; 32], 4);
    assert_ne!(
        base,
        build_public_inputs(&[9u8; 32], &[2u8; 32], &[3u8; 32], 4)
    );
    assert_ne!(
        base,
        build_public_inputs(&[1u8; 32], &[9u8; 32], &[3u8; 32], 4)
    );
    assert_ne!(
        base,
        build_public_inputs(&[1u8; 32], &[2u8; 32], &[9u8; 32], 4)
    );
    assert_ne!(
        base,
        build_public_inputs(&[1u8; 32], &[2u8; 32], &[3u8; 32], 9)
    );
}

#[test]
fn public_inputs_are_canonical() {
    for i in 0..=255u8 {
        let inputs = build_public_inputs(&[i; 32], &[255 - i; 32], &[i; 32], i as u64);
        for input in inputs {
            assert!(input < BN254_FIELD_MODULUS);
        }
        if [i; 32] < BN254_FIELD_MODULUS {
            assert_eq!(inputs[0], [i; 32]);
        }
    }
}

#[test]
fn field_elements_are_reduced_by_the_scalar_order() {
    assert_eq!(
        to_field_element(&[0xffu8; 32]),
        hex::<32>("0e0a77c19a07df2f666ea36f7879462e36fc76959f60cd29ac96341c4ffffffa")
    );
    assert_eq!(
        to_field_element(&BN254_FIELD_MODULUS),
        hex::<32>("000000000000000000000000000000006f4d8248eeb859fbf83e9682e87cfd46")
    );
    let mut canonical = BN254_FIELD_MODULUS;
    canonical[31] = 0x46;
    assert_eq!(to_field_element(&canonical), canonical);
    assert_eq!(to_field_element(&number(5)), number(5));
}

#[test]
fn zero_inputs_leave_the_first_point() {
    let mut input = fee_key();
    input.ic[0] = hex(G1_TIMES_2);
    let key1 = VerifyingKey::from_input(input.clone()).unwrap();
    input.ic = vec![
        hex(G1_TIMES_2),
        hex(G1),
        hex(G1_TIMES_4),
        hex(G1_TIMES_3),
        hex(G1_TIMES_2),
    ];
    let key2 = VerifyingKey::from_input(input).unwrap();
    // alpha and the first point add up to three times G1.
    for (a, valid) in [(G1_TIMES_3, true), (G1_TIMES_4, false)] {
        let attempt = Proof {
            a: hex(a),
            b: hex(G2),
            c: [0u8; 64],
        };
        assert_eq!(key1.verify(&attempt, &[[0u8; 32]; 4]), Ok(valid));
        assert_eq!(key2.verify(&attempt, &[[0u8; 32]; 4]), Ok(valid));
    }
}

#[test]
fn mask_clears_the_top_three_bits() {
    let mut expected = [0xffu8; 32];
    expected[0] = 0x1f;
    assert_eq!(mask_digest([0xffu8; 32]), expected);
    assert_eq!(mask_digest(number(5)), number(5));
}

#[test]
fn byte_strings() {
    assert!(is_zero(&[]));
    assert!(is_zero(&[0u8; 7]));
    assert!(!is_zero(&[0, 0, 1]));
    assert!(digest_eq(&[3u8; 32], &[3u8; 32]));
    assert!(!digest_eq(&number(3), &number(4)));
    assert_eq!(join_bytes(&[1, 2], &[3]), vec![1, 2, 3]);
    assert_eq!(encode_u64(0), [0u8; 8]);
    assert_eq!(encode_u64(258), [0, 0, 0, 0, 0, 0, 1, 2]);
    assert_eq!(encode_u64(u64::MAX), [0xffu8; 8]);
    assert!(is_below(&number(3), &number(4)));
    assert!(!is_below(&number(4), &number(4)));
    assert!(!is_below(&[1u8; 32], &number(4)));
}
