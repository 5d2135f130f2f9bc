//! Groth16 proofs over the BN254 (alt_bn128) curve.

use crate::bytes::be_bytes;
use crate::bytes::be_value;
use crate::bytes::join_bytes;
use crate::bytes::encode_u64;
use crate::bytes::is_below;
use crate::bytes::is_zero;
use crate::bytes::lemma_be_bound;
use crate::bytes::lemma_be_bytes_value;
use crate::bytes::lemma_be_injective;
use crate::bytes::lemma_be_less;
use crate::bytes::lemma_be_split_first;
use crate::bytes::lemma_be_zero;
use crate::bytes::lemma_weight;
use crate::bytes::weight;
use crate::bytes::zero_bytes;
use crate::curve::addition_output;
use crate::curve::multiplication_output;
use crate::curve::pairing_output;
use crate::errors::ShieldedError;
use crate::keccak::keccak256;
use crate::keccak::keccak256_digest;
use anchor_lang::solana_program::alt_bn128::prelude::alt_bn128_addition;
use anchor_lang::solana_program::alt_bn128::prelude::alt_bn128_multiplication;
use anchor_lang::solana_program::alt_bn128::prelude::alt_bn128_pairing;
use vstd::prelude::*;

verus! {

/// Number of public inputs that the withdrawal circuit exposes: root, nullifier
/// hash, recipient and fee, each encoded as one BN254 field element.
pub const NUM_PUBLIC_INPUTS: usize = 4;

/// Number of G1 points of a verifying key: one for each public input, plus one.
pub const NUM_IC_POINTS: usize = 5;

/// The BN254 base field prime p. G1 negation is (x, p - y).
pub const BN254_FIELD_MODULUS: [u8; 32] = [
    0x30, 0x64, 0x4e, 0x72, 0xe1, 0x31, 0xa0, 0x29, 0xb8, 0x50, 0x45, 0xb6, 0x81, 0x81, 0x58, 0x5d,
    0x97, 0x81, 0x6a, 0x91, 0x68, 0x71, 0xca, 0x8d, 0x3c, 0x20, 0x8c, 0x16, 0xd8, 0x7c, 0xfd, 0x47,
];

/// The value of the field prime p.
pub open spec fn field_modulus() -> nat {
    be_value(BN254_FIELD_MODULUS@)
}

/// The order r of the BN254 scalar field. Multiples of r added to a scalar do not
/// change what it multiplies a point to.
pub const BN254_SCALAR_MODULUS: [u8; 32] = [
    0x30, 0x64, 0x4e, 0x72, 0xe1, 0x31, 0xa0, 0x29, 0xb8, 0x50, 0x45, 0xb6, 0x81, 0x81, 0x58, 0x5d,
    0x28, 0x33, 0xe8, 0x48, 0x79, 0xb9, 0x70, 0x91, 0x43, 0xe1, 0xf5, 0x93, 0xf0, 0x00, 0x00, 0x01,
];

/// The value of the scalar field order r.
pub open spec fn scalar_modulus() -> nat {
    be_value(BN254_SCALAR_MODULUS@)
}

/// The scalar field order is positive and below the base field prime.
pub proof fn lemma_moduli()
    ensures
        0 < scalar_modulus() < field_modulus() < weight(32),
{
    let r = BN254_SCALAR_MODULUS@;
    let p = BN254_FIELD_MODULUS@;
    assert(r.take(16) =~= p.take(16));
    lemma_be_less(r, p, 16);
    lemma_be_bound(p);
    lemma_be_zero(r);
    assert(zero_bytes(32)[0] != r[0]);
}

/// `a - b` for 32-byte big-endian values, where `b` is the first 32 bytes of its
/// slice. It is the true difference where `a >= b` and wraps at 2^256 otherwise.
pub fn big_endian_sub(a: &[u8; 32], b: &[u8]) -> (difference: [u8; 32])
    requires
        b@.len() >= 32,
    ensures
        be_value(difference@) == (be_value(a@) - be_value(b@.take(32))) % weight(32),
        be_value(a@) >= be_value(b@.take(32)) ==> be_value(difference@) == be_value(a@) - be_value(
            b@.take(32),
        ),
{
    let mut result = [0u8; 32];
    let mut borrow: i16 = 0;
    let mut i: usize = 32;
    let ghost bs = b@.take(32);
    proof {
        assert(a@.skip(32) =~= Seq::empty());
        assert(bs.skip(32) =~= Seq::empty());
        assert(result@.skip(32) =~= Seq::empty());
    }
    while i > 0
        invariant
            i <= 32,
            b@.len() >= 32,
            bs == b@.take(32),
            borrow == 0 || borrow == 1,
            be_value(a@.skip(i as int)) - be_value(bs.skip(i as int)) == be_value(
                result@.skip(i as int),
            ) - borrow * weight((32 - i) as nat),
        decreases i,
    {
        let ghost before = result@;
        let ghost taken = borrow as int;
        let ghost w = weight((32 - i) as nat);
        i -= 1;
        let av: i16 = a[i] as i16;
        let bv: i16 = b[i] as i16;
        let mut diff: i16 = av - bv - borrow;
        if diff < 0 {
            diff += 256;
            borrow = 1;
        } else {
            borrow = 0;
        }
        result[i] = diff as u8;
        proof {
            let j = i as int;
            lemma_be_split_first(a@, j);
            lemma_be_split_first(bs, j);
            lemma_be_split_first(result@, j);
            assert(result@.skip(j + 1) =~= before.skip(j + 1));
            assert(bs[j] == b@[j]);
            lemma_weight((32 - j - 1) as nat);
            let x = a@[j] as int;
            let y = b@[j] as int;
            let d = result@[j] as int;
            assert(d == x - y - taken + 256 * borrow);
            assert(d * w == x * w - y * w - taken * w + borrow * (256 * w)) by (nonlinear_arith)
                requires
                    d == x - y - taken + 256 * borrow,
            ;
        }
    }
    proof {
        assert(a@.skip(0) =~= a@);
        assert(bs.skip(0) =~= bs);
        assert(result@.skip(0) =~= result@);
        lemma_be_bound(result@);
        lemma_be_bound(a@);
        lemma_be_bound(bs);
        let m = weight(32);
        let d = be_value(a@) - be_value(bs);
        let r = be_value(result@) as int;
        if borrow == 0 {
            vstd::arithmetic::div_mod::lemma_small_mod(r as nat, m as nat);
        } else {
            assert(r == d + m);
            vstd::arithmetic::div_mod::lemma_small_mod(r as nat, m as nat);
            vstd::arithmetic::div_mod::lemma_mod_add_multiples_vanish(d, m);
        }
    }
    result
}

/// The encoding `x || y` of a G1 point with `y` replaced by `p - y`. A zero `y`
/// stays; a `y` above `p` wraps at 2^256.
pub open spec fn g1_negation(point: Seq<u8>) -> Seq<u8> {
    let y = be_value(point.skip(32));
    let negated = if y == 0 {
        0
    } else {
        (field_modulus() - y) % weight(32)
    };
    point.take(32) + be_bytes(negated as nat, 32)
}

/// Negates a G1 point encoded as x(32) || y(32), big-endian. A point with
/// `y == 0` is either infinity or invalid and is left as it is.
pub fn negate_g1(point: &[u8; 64]) -> (negated: [u8; 64])
    ensures
        negated@ == g1_negation(point@),
        negated@.take(32) == point@.take(32),
        be_value(point@.skip(32)) == 0 ==> negated == *point,
        be_value(point@.skip(32)) != 0 ==> (be_value(point@.skip(32)) + be_value(
            negated@.skip(32),
        )) as int % weight(32) == field_modulus(),
{
    let mut out = *point;
    proof {
        law_negation_cancels(point@);
    }
    let y: &[u8] = &point[32..64];
    assert(y@ =~= point@.skip(32));
    proof {
        lemma_be_zero(y@);
        lemma_weight(32);
    }
    if is_zero(y) {
        proof {
            lemma_be_bytes_value(0, 32);
            lemma_be_injective(be_bytes(0, 32), y@);
            assert(out@ =~= g1_negation(point@));
        }
        return out;
    }
    let neg_y = big_endian_sub(&BN254_FIELD_MODULUS, y);
    let mut i: usize = 0;
    while i < 32
        invariant
            i <= 32,
            forall|j: int| 0 <= j < 32 ==> out@[j] == point@[j],
            forall|j: int| 0 <= j < i ==> out@[32 + j] == neg_y@[j],
        decreases 32 - i,
    {
        out[32 + i] = neg_y[i];
        i += 1;
    }
    proof {
        assert(y@.take(32) =~= y@);
        lemma_be_bound(neg_y@);
        lemma_be_bytes_value(be_value(neg_y@), 32);
        lemma_be_injective(be_bytes(be_value(neg_y@), 32), neg_y@);
        assert(out@ =~= point@.take(32) + neg_y@);
    }
    out
}

/// A Groth16 proof: `a` and `c` are G1 points, `b` is a G2 point, all big-endian
/// and uncompressed, in the layout of the alt_bn128 operations.
#[derive(Clone, Debug, PartialEq, Eq)]
pub struct Proof {
    pub a: [u8; 64],
    pub b: [u8; 128],
    pub c: [u8; 64],
}

/// A verifying key as it is handed in at initialization. `ic` should hold one G1
/// point for each public input, plus one.
#[derive(Clone, Debug, PartialEq, Eq)]
pub struct VerifyingKeyInput {
    pub alpha_g1: [u8; 64],
    pub beta_g2: [u8; 128],
    pub gamma_g2: [u8; 128],
    pub delta_g2: [u8; 128],
    pub ic: Vec<[u8; 64]>,
}

/// A stored verifying key, with a fixed number of points.
#[derive(Clone, Debug, PartialEq, Eq)]
pub struct VerifyingKey {
    pub alpha_g1: [u8; 64],
    pub beta_g2: [u8; 128],
    pub gamma_g2: [u8; 128],
    pub delta_g2: [u8; 128],
    pub ic: [[u8; 64]; NUM_IC_POINTS],
}

impl VerifyingKey {
    /// The bytes that a stored key takes.
    pub const SIZE: usize = 64 + 128 + 128 + 128 + (64 * NUM_IC_POINTS);

    /// This key holds exactly what `input` holds.
    pub open spec fn is_of_input(self, input: VerifyingKeyInput) -> bool {
        &&& self.alpha_g1 == input.alpha_g1
        &&& self.beta_g2 == input.beta_g2
        &&& self.gamma_g2 == input.gamma_g2
        &&& self.delta_g2 == input.delta_g2
        &&& self.ic@ == input.ic@
    }

    /// Takes a key over for storage. It is refused unless it has the right number
    /// of points.
    pub fn from_input(input: VerifyingKeyInput) -> (key: Result<Self, ShieldedError>)
        ensures
            match key {
                Ok(k) => {
                    &&& input.ic@.len() == NUM_IC_POINTS
                    &&& k.is_of_input(input)
                    &&& k.alpha_g1 == input.alpha_g1
                    &&& k.beta_g2 == input.beta_g2
                    &&& k.gamma_g2 == input.gamma_g2
                    &&& k.delta_g2 == input.delta_g2
                    &&& k.ic@ == input.ic@
                },
                Err(e) => input.ic@.len() != NUM_IC_POINTS && e == ShieldedError::MalformedInput,
            },
    {
        if input.ic.len() != NUM_IC_POINTS {
            return Err(ShieldedError::MalformedInput);
        }
        let mut ic = [[0u8; 64]; NUM_IC_POINTS];
        let mut i: usize = 0;
        while i < NUM_IC_POINTS
            invariant
                i <= NUM_IC_POINTS,
                input.ic@.len() == NUM_IC_POINTS,
                forall|j: int| 0 <= j < i ==> ic@[j] == input.ic@[j],
            decreases NUM_IC_POINTS - i,
        {
            ic[i] = input.ic[i];
            i += 1;
        }
        assert(ic@ =~= input.ic@);
        Ok(
            Self {
                alpha_g1: input.alpha_g1,
                beta_g2: input.beta_g2,
                gamma_g2: input.gamma_g2,
                delta_g2: input.delta_g2,
                ic,
            },
        )
    }

    /// `IC[0]` plus the sum, over the first `n` public inputs, of the input times
    /// its point; `None` where a curve operation fails.
    pub open spec fn input_point(self, public_inputs: Seq<Seq<u8>>, n: nat) -> Option<Seq<u8>>
        decreases n,
    {
        if n == 0 {
            Some(self.ic@[0]@)
        } else {
            match (
                self.input_point(public_inputs, (n - 1) as nat),
                multiplication_output(self.ic@[n as int]@ + public_inputs[n - 1]),
            ) {
                (Some(sum), Some(term)) => addition_output(sum + term),
                _ => None,
            }
        }
    }

    /// The pairs whose pairings are multiplied: (-A, B), (alpha, beta), (vk_x,
    /// gamma) and (C, delta), with each point in its encoding.
    pub open spec fn pairs(self, proof: Proof, vk_x: Seq<u8>) -> Seq<u8> {
        g1_negation(proof.a@) + proof.b@ + self.alpha_g1@ + self.beta_g2@ + vk_x + self.gamma_g2@
            + proof.c@ + self.delta_g2@
    }

    /// Whether `e(-A, B) * e(alpha, beta) * e(vk_x, gamma) * e(C, delta) == 1`;
    /// `None` where `vk_x` is missing or the pairing fails.
    pub open spec fn pairing_verdict(self, proof: Proof, vk_x: Option<Seq<u8>>) -> Option<bool> {
        match vk_x {
            Some(point) => match pairing_output(self.pairs(proof, point)) {
                Some(output) => Some(be_value(output) == 1),
                None => None,
            },
            None => None,
        }
    }

    /// Whether `proof` is valid for `public_inputs`, that is, whether the pairing
    /// check holds with `vk_x = IC[0] + sum_i public_i * IC[i + 1]`. `None` where a
    /// curve operation fails.
    pub open spec fn verdict(self, proof: Proof, public_inputs: Seq<Seq<u8>>) -> Option<bool> {
        self.pairing_verdict(
            proof,
            self.input_point(public_inputs, NUM_PUBLIC_INPUTS as nat),
        )
    }

    /// The curve operations take every point that is multiplied by an input.
    pub open spec fn has_valid_points(self) -> bool {
        forall|i: int|
            1 <= i < NUM_IC_POINTS ==> multiplication_output(
                #[trigger] self.ic@[i]@ + zero_bytes(32),
            ) is Some
    }

    /// What verification says where every public input is zero: no point but
    /// `IC[0]` counts.
    pub open spec fn zero_input_verdict(self, proof: Proof) -> Option<bool> {
        self.pairing_verdict(proof, padded_point(self.ic@[0]@, NUM_PUBLIC_INPUTS as nat))
    }

    /// The input of the pairing check, for the point that stands for the public
    /// inputs.
    pub fn pairing_input(&self, proof: &Proof, vk_x: &[u8; 64]) -> (input: Vec<u8>)
        ensures
            input@ == self.pairs(*proof, vk_x@),
            input@.len() == 4 * 192,
            input@.subrange(64, 192) == proof.b@,
            input@.subrange(192, 256) == self.alpha_g1@,
            input@.subrange(256, 384) == self.beta_g2@,
            input@.subrange(384, 448) == vk_x@,
            input@.subrange(448, 576) == self.gamma_g2@,
            input@.subrange(576, 640) == proof.c@,
            input@.subrange(640, 768) == self.delta_g2@,
    {
        let neg_a = negate_g1(&proof.a);
        let mut input: Vec<u8> = Vec::with_capacity(768);
        input.extend_from_slice(&neg_a);
        input.extend_from_slice(&proof.b);
        input.extend_from_slice(&self.alpha_g1);
        input.extend_from_slice(&self.beta_g2);
        input.extend_from_slice(vk_x);
        input.extend_from_slice(&self.gamma_g2);
        input.extend_from_slice(&proof.c);
        input.extend_from_slice(&self.delta_g2);
        proof {
            lemma_negated_y(proof.a@);
            assert(input@ =~= self.pairs(*proof, vk_x@));
            assert(input@.subrange(64, 192) =~= proof.b@);
            assert(input@.subrange(192, 256) =~= self.alpha_g1@);
            assert(input@.subrange(256, 384) =~= self.beta_g2@);
            assert(input@.subrange(384, 448) =~= vk_x@);
            assert(input@.subrange(448, 576) =~= self.gamma_g2@);
            assert(input@.subrange(576, 640) =~= proof.c@);
            assert(input@.subrange(640, 768) =~= self.delta_g2@);
        }
        input
    }

    /// Groth16 verification with the alt_bn128 operations.
    ///
    /// Computes `vk_x = IC[0] + sum_i (public_i * IC[i + 1])`, then checks
    /// `e(-A, B) * e(alpha, beta) * e(vk_x, gamma) * e(C, delta) == 1`.
    pub fn verify(
        &self,
        proof: &Proof,
        public_inputs: &[[u8; 32]; NUM_PUBLIC_INPUTS],
    ) -> (valid: Result<bool, ShieldedError>)
        ensures
            valid == outcome(self.verdict(*proof, digests(public_inputs@))),
            match self.input_point(digests(public_inputs@), NUM_PUBLIC_INPUTS as nat) {
                Some(vk_x) => match pairing_output(
                    g1_negation(proof.a@) + proof.b@ + self.alpha_g1@ + self.beta_g2@ + vk_x
                        + self.gamma_g2@ + proof.c@ + self.delta_g2@,
                ) {
                    Some(output) => valid == Ok::<bool, ShieldedError>(be_value(output) == 1),
                    None => valid == Err::<bool, ShieldedError>(
                        ShieldedError::CurveOperationFailed,
                    ),
                },
                None => valid == Err::<bool, ShieldedError>(ShieldedError::CurveOperationFailed),
            },
            self.has_valid_points() && is_all_zero(public_inputs@) ==> valid == outcome(
                self.zero_input_verdict(*proof),
            ),
    {
        let ghost inputs = digests(public_inputs@);
        let ghost blank = self.has_valid_points() && is_all_zero(public_inputs@);
        let mut vk_x = self.ic[0];
        let mut i: usize = 0;
        while i < NUM_PUBLIC_INPUTS
            invariant
                i <= NUM_PUBLIC_INPUTS,
                inputs == digests(public_inputs@),
                blank == (self.has_valid_points() && is_all_zero(public_inputs@)),
                self.input_point(inputs, i as nat) == Some(vk_x@),
                blank ==> padded_point(self.ic@[0]@, i as nat) == Some(vk_x@),
            decreases NUM_PUBLIC_INPUTS - i,
        {
            proof {
                if blank {
                    assert(public_inputs@[i as int]@ == zero_bytes(32));
                    assert(multiplication_output(self.ic@[i + 1]@ + zero_bytes(32)) is Some);
                }
                assert((self.ic@[i + 1]@ + public_inputs@[i as int]@).skip(64)
                    =~= public_inputs@[i as int]@);
            }
            let mul_input = join_bytes(&self.ic[i + 1], &public_inputs[i]);
            let term = match alt_bn128_multiplication(&mul_input) {
                Ok(term) => term,
                Err(_) => {
                    proof {
                        self.lemma_failure_lasts(inputs, (i + 1) as nat);
                    }
                    return Err(ShieldedError::CurveOperationFailed);
                },
            };
            let add_input = join_bytes(&vk_x, &term);
            let sum = match alt_bn128_addition(&add_input) {
                Ok(sum) => sum,
                Err(_) => {
                    proof {
                        self.lemma_failure_lasts(inputs, (i + 1) as nat);
                        if blank {
                            lemma_padding_failure_lasts(self.ic@[0]@, (i + 1) as nat);
                        }
                    }
                    return Err(ShieldedError::CurveOperationFailed);
                },
            };
            vk_x = to_point(&sum);
            i += 1;
        }
        let pairing_input = self.pairing_input(proof, &vk_x);
        match alt_bn128_pairing(&pairing_input) {
            Ok(result) => Ok(pairing_accepts(&result)),
            Err(_) => Err(ShieldedError::CurveOperationFailed),
        }
    }

    /// Where the sum over the first `n` inputs fails, the whole sum does.
    proof fn lemma_failure_lasts(self, public_inputs: Seq<Seq<u8>>, n: nat)
        requires
            n <= NUM_PUBLIC_INPUTS,
            self.input_point(public_inputs, n) is None,
        ensures
            self.input_point(public_inputs, NUM_PUBLIC_INPUTS as nat) is None,
        decreases NUM_PUBLIC_INPUTS - n,
    {
        if n < NUM_PUBLIC_INPUTS {
            self.lemma_failure_lasts(public_inputs, n + 1);
        }
    }
}

/// `point` plus `n` times the point at infinity; `None` where a curve operation
/// fails.
pub open spec fn padded_point(point: Seq<u8>, n: nat) -> Option<Seq<u8>>
    decreases n,
{
    if n == 0 {
        Some(point)
    } else {
        match padded_point(point, (n - 1) as nat) {
            Some(sum) => addition_output(sum + zero_bytes(64)),
            None => None,
        }
    }
}

/// Where the sum with `n` points at infinity fails, the whole sum does.
proof fn lemma_padding_failure_lasts(point: Seq<u8>, n: nat)
    requires
        n <= NUM_PUBLIC_INPUTS,
        padded_point(point, n) is None,
    ensures
        padded_point(point, NUM_PUBLIC_INPUTS as nat) is None,
    decreases NUM_PUBLIC_INPUTS - n,
{
    if n < NUM_PUBLIC_INPUTS {
        lemma_padding_failure_lasts(point, n + 1);
    }
}

/// The result of verification for a verdict.
pub open spec fn outcome(verdict: Option<bool>) -> Result<bool, ShieldedError> {
    match verdict {
        Some(valid) => Ok(valid),
        None => Err(ShieldedError::CurveOperationFailed),
    }
}

/// Every one of `arrays` is all zero.
pub open spec fn is_all_zero(arrays: Seq<[u8; 32]>) -> bool {
    forall|i: int| 0 <= i < arrays.len() ==> #[trigger] arrays[i]@ == zero_bytes(32)
}

/// Law: `IC[0]` is paired with no public input. Where every public input is zero,
/// keys that agree but for the points of the inputs say the same of every proof.
pub proof fn law_zero_inputs_leave_the_first_point(
    key1: VerifyingKey,
    key2: VerifyingKey,
    proof_for_both: Proof,
)
    requires
        key1.alpha_g1 == key2.alpha_g1,
        key1.beta_g2 == key2.beta_g2,
        key1.gamma_g2 == key2.gamma_g2,
        key1.delta_g2 == key2.delta_g2,
        key1.ic@[0] == key2.ic@[0],
    ensures
        key1.zero_input_verdict(proof_for_both) == key2.zero_input_verdict(proof_for_both),
{
}

/// The bytes of one encoded G1 point.
fn to_point(bytes: &Vec<u8>) -> (point: [u8; 64])
    requires
        bytes@.len() == 64,
    ensures
        point@ == bytes@,
{
    let mut point = [0u8; 64];
    let mut i: usize = 0;
    while i < 64
        invariant
            i <= 64,
            bytes@.len() == 64,
            forall|j: int| 0 <= j < i ==> point@[j] == bytes@[j],
        decreases 64 - i,
    {
        point[i] = bytes[i];
        i += 1;
    }
    assert(point@ =~= bytes@);
    point
}

/// Whether the output of a pairing check says that the product is the identity:
/// it is a 32-byte big-endian 1.
pub fn pairing_accepts(result: &[u8]) -> (accepts: bool)
    requires
        result@.len() == 32,
    ensures
        accepts == (be_value(result@) == 1),
{
    let front: &[u8] = &result[0..31];
    assert(result@.drop_last() =~= front@);
    proof {
        lemma_be_zero(front@);
    }
    result[31] == 1 && is_zero(front)
}

/// The bytes of each of `arrays`.
pub open spec fn digests(arrays: Seq<[u8; 32]>) -> Seq<Seq<u8>> {
    arrays.map_values(|array: [u8; 32]| array@)
}

/// The digest with the top three bits cleared.
pub open spec fn masked(digest: Seq<u8>) -> Seq<u8> {
    digest.update(0, digest[0] & 0x1f)
}

/// The canonical field element that stands for the 32-byte number `s`: `s` itself
/// where it is canonical, and otherwise its remainder modulo the scalar field
/// order, which is the same scalar.
pub open spec fn field_element(s: Seq<u8>) -> Seq<u8> {
    if be_value(s) < field_modulus() {
        s
    } else {
        be_bytes(be_value(s) % scalar_modulus(), 32)
    }
}

/// The ordered public inputs of a withdrawal: the field elements that stand for
/// the root and for the nullifier hash, and the masked Keccak-256 digests of the
/// recipient's key and of the fee's eight big-endian bytes.
pub open spec fn public_inputs(
    root: Seq<u8>,
    nullifier_hash: Seq<u8>,
    recipient: Seq<u8>,
    fee: u64,
) -> Seq<Seq<u8>> {
    seq![
        field_element(root),
        field_element(nullifier_hash),
        masked(keccak256_digest(recipient)),
        masked(keccak256_digest(be_bytes(fee as nat, 8))),
    ]
}

/// `s` is the canonical encoding of an element of the field.
pub open spec fn is_canonical(s: Seq<u8>) -> bool {
    s.len() == 32 && be_value(s) < field_modulus()
}

/// Clears the top three bits of a digest, which makes it a canonical field
/// element.
pub fn mask_digest(digest: [u8; 32]) -> (field: [u8; 32])
    ensures
        field@ == masked(digest@),
        be_value(field@) == be_value(digest@) as int % (32 * weight(31)),
        is_canonical(field@),
{
    let mut field = digest;
    let top: u8 = digest[0];
    field[0] = top & 0x1f;
    proof {
        assert(top & 0x1f <= 0x1f) by (bit_vector);
        lemma_small_is_canonical(field@);
        assert(field@ =~= masked(digest@));
        law_mask_is_remainder(digest@);
    }
    field
}

/// A field element keeps the scalar: it is congruent to the number that it stands
/// for, modulo the scalar field order.
pub proof fn lemma_field_element(s: Seq<u8>)
    requires
        s.len() == 32,
    ensures
        is_canonical(field_element(s)),
        be_value(field_element(s)) % scalar_modulus() == be_value(s) % scalar_modulus(),
{
    let v = be_value(s) as int;
    let r = scalar_modulus() as int;
    lemma_moduli();
    vstd::arithmetic::div_mod::lemma_mod_bound(v, r);
    vstd::arithmetic::div_mod::lemma_mod_twice(v, r);
    lemma_be_bytes_value((v % r) as nat, 32);
}

/// Makes a 32-byte number a canonical field element.
pub fn to_field_element(number: &[u8; 32]) -> (element: [u8; 32])
    ensures
        element@ == field_element(number@),
        be_value(number@) < field_modulus() ==> element == *number,
        be_value(number@) >= field_modulus() ==> be_value(element@) == be_value(number@)
            % scalar_modulus(),
        is_canonical(element@),
{
    proof {
        law_field_element_is_remainder(number@);
        lemma_field_element(number@);
        lemma_moduli();
    }
    if is_below(number, &BN254_FIELD_MODULUS) {
        return *number;
    }
    let mut rest = *number;
    while !is_below(&rest, &BN254_SCALAR_MODULUS)
        invariant
            scalar_modulus() > 0,
            be_value(rest@) % scalar_modulus() == be_value(number@) % scalar_modulus(),
        decreases be_value(rest@),
    {
        let ghost before = be_value(rest@) as int;
        let ghost r = scalar_modulus() as int;
        rest = big_endian_sub(&rest, &BN254_SCALAR_MODULUS);
        proof {
            assert(BN254_SCALAR_MODULUS@.take(32) =~= BN254_SCALAR_MODULUS@);
            assert(be_value(rest@) == before - r);
            vstd::arithmetic::div_mod::lemma_mod_sub_multiples_vanish(before, r);
        }
    }
    proof {
        vstd::arithmetic::div_mod::lemma_small_mod(be_value(rest@), scalar_modulus());
        lemma_be_bytes_value(be_value(rest@), 32);
        lemma_be_injective(be_bytes(be_value(rest@), 32), rest@);
    }
    rest
}

/// Assembles the ordered public inputs that the circuit is expected to expose.
///
/// Each is a canonical field element. A canonical root or nullifier hash is handed
/// on as it is. The recipient and the fee are Keccak-256 digests with the top
/// three bits cleared; the circuit has to apply the same reductions.
pub fn build_public_inputs(
    root: &[u8; 32],
    nullifier_hash: &[u8; 32],
    recipient: &[u8; 32],
    fee: u64,
) -> (inputs: [[u8; 32]; NUM_PUBLIC_INPUTS])
    ensures
        digests(inputs@) == public_inputs(root@, nullifier_hash@, recipient@, fee),
        inputs@[0]@ == field_element(root@),
        inputs@[1]@ == field_element(nullifier_hash@),
        inputs@[2]@ == masked(keccak256_digest(recipient@)),
        inputs@[3]@ == masked(keccak256_digest(be_bytes(fee as nat, 8))),
        be_value(inputs@[2]@) == be_value(keccak256_digest(recipient@)) as int % (32 * weight(31)),
        be_value(inputs@[3]@) == be_value(keccak256_digest(be_bytes(fee as nat, 8))) as int % (32
            * weight(31)),
        forall|i: int| 0 <= i < NUM_PUBLIC_INPUTS ==> is_canonical(#[trigger] inputs@[i]@),
        is_canonical(root@) ==> inputs@[0] == *root,
        is_canonical(nullifier_hash@) ==> inputs@[1] == *nullifier_hash,
{
    let root_field = to_field_element(root);
    let nullifier_field = to_field_element(nullifier_hash);
    let recipient_field = mask_digest(keccak256(recipient));
    let fee_field = mask_digest(keccak256(&encode_u64(fee)));
    let inputs = [root_field, nullifier_field, recipient_field, fee_field];
    proof {
        if is_canonical(root@) {
            assert(root_field =~= *root);
        }
        if is_canonical(nullifier_hash@) {
            assert(nullifier_field =~= *nullifier_hash);
        }
        assert(digests(inputs@) =~= public_inputs(root@, nullifier_hash@, recipient@, fee));
    }
    inputs
}

/// 32 bytes whose first is below that of the field prime are canonical.
proof fn lemma_small_is_canonical(s: Seq<u8>)
    requires
        s.len() == 32,
        s[0] < 0x30,
    ensures
        is_canonical(s),
{
    let p = BN254_FIELD_MODULUS@;
    lemma_be_split_first(s, 0);
    lemma_be_split_first(p, 0);
    assert(s.skip(0) =~= s);
    assert(p.skip(0) =~= p);
    lemma_be_bound(s.skip(1));
    lemma_weight(31);
    let w = weight(31);
    let x = s[0] as int;
    assert(x * w <= 0x2f * w) by (nonlinear_arith)
        requires
            x <= 0x2f,
            w > 0,
    ;
    assert(p[0] == 0x30);
}

/// Law: the public inputs bind the request. Two requests with the same public
/// inputs have roots and nullifier hashes that are the same field elements, and
/// the same bytes where they are canonical, and recipients and fees whose digests
/// agree below the masked bits.
pub proof fn law_public_inputs_bind(
    root1: Seq<u8>,
    nullifier_hash1: Seq<u8>,
    recipient1: Seq<u8>,
    fee1: u64,
    root2: Seq<u8>,
    nullifier_hash2: Seq<u8>,
    recipient2: Seq<u8>,
    fee2: u64,
)
    requires
        root1.len() == 32,
        root2.len() == 32,
        nullifier_hash1.len() == 32,
        nullifier_hash2.len() == 32,
        public_inputs(root1, nullifier_hash1, recipient1, fee1) == public_inputs(
            root2,
            nullifier_hash2,
            recipient2,
            fee2,
        ),
    ensures
        be_value(root1) % scalar_modulus() == be_value(root2) % scalar_modulus(),
        is_canonical(root1) && is_canonical(root2) ==> root1 == root2,
        be_value(nullifier_hash1) % scalar_modulus() == be_value(nullifier_hash2)
            % scalar_modulus(),
        is_canonical(nullifier_hash1) && is_canonical(nullifier_hash2) ==> nullifier_hash1
            == nullifier_hash2,
        masked(keccak256_digest(recipient1)) == masked(keccak256_digest(recipient2)),
        masked(keccak256_digest(be_bytes(fee1 as nat, 8))) == masked(
            keccak256_digest(be_bytes(fee2 as nat, 8)),
        ),
{
    let a = public_inputs(root1, nullifier_hash1, recipient1, fee1);
    let b = public_inputs(root2, nullifier_hash2, recipient2, fee2);
    assert(a[0] == b[0] && a[1] == b[1] && a[2] == b[2] && a[3] == b[3]);
    lemma_field_element(root1);
    lemma_field_element(root2);
    lemma_field_element(nullifier_hash1);
    lemma_field_element(nullifier_hash2);
}

/// Law: the coordinates `y` of a canonical point and of its negation add up to
/// the field prime, or are both zero.
pub proof fn law_negation_is_complement(point: Seq<u8>)
    requires
        point.len() == 64,
        is_canonical(point.skip(32)),
    ensures
        ({
            let y = be_value(point.skip(32));
            let negated = be_value(g1_negation(point).skip(32));
            &&& g1_negation(point).take(32) == point.take(32)
            &&& y == 0 ==> negated == 0
            &&& y != 0 ==> y + negated == field_modulus()
        }),
{
    let y = be_value(point.skip(32));
    lemma_negated_y(point);
    lemma_be_bound(BN254_FIELD_MODULUS@);
    if y != 0 {
        vstd::arithmetic::div_mod::lemma_small_mod(
            (field_modulus() - y) as nat,
            weight(32) as nat,
        );
    }
}

/// Law: negation undoes itself, on every encoding whose `y` is not the field
/// prime itself.
pub proof fn law_negation_undoes_itself(point: Seq<u8>)
    requires
        point.len() == 64,
        be_value(point.skip(32)) != field_modulus(),
    ensures
        g1_negation(g1_negation(point)) == point,
{
    let y = be_value(point.skip(32)) as int;
    let p = field_modulus() as int;
    let m = weight(32);
    let negated = g1_negation(point);
    lemma_negated_y(point);
    lemma_negated_y(negated);
    lemma_be_bound(point.skip(32));
    lemma_be_bound(BN254_FIELD_MODULUS@);
    let z = be_value(negated.skip(32)) as int;
    if y != 0 {
        // z is p - y, moved up by 2^256 where y is above p.
        if y < p {
            vstd::arithmetic::div_mod::lemma_small_mod((p - y) as nat, m as nat);
            assert(z == p - y);
            vstd::arithmetic::div_mod::lemma_small_mod((p - z) as nat, m as nat);
        } else {
            vstd::arithmetic::div_mod::lemma_mod_add_multiples_vanish(p - y, m);
            vstd::arithmetic::div_mod::lemma_small_mod((p - y + m) as nat, m as nat);
            assert(z == p - y + m);
            vstd::arithmetic::div_mod::lemma_mod_add_multiples_vanish(p - z, m);
            vstd::arithmetic::div_mod::lemma_small_mod((p - z + m) as nat, m as nat);
        }
    }
    let back = g1_negation(negated);
    assert(be_value(back.skip(32)) == y);
    lemma_be_injective(back.skip(32), point.skip(32));
    assert(back =~= back.take(32) + back.skip(32));
    assert(point =~= point.take(32) + point.skip(32));
}

/// What a negation holds: the same `x`, and the value of the new `y`.
proof fn lemma_negated_y(point: Seq<u8>)
    requires
        point.len() == 64,
    ensures
        g1_negation(point).len() == 64,
        g1_negation(point).take(32) == point.take(32),
        ({
            let y = be_value(point.skip(32));
            be_value(g1_negation(point).skip(32)) == if y == 0 {
                0
            } else {
                (field_modulus() - y) % weight(32)
            }
        }),
{
    let y = be_value(point.skip(32));
    lemma_weight(32);
    let value = if y == 0 {
        0
    } else {
        (field_modulus() - y) % weight(32)
    };
    vstd::arithmetic::div_mod::lemma_mod_bound(field_modulus() - y, weight(32));
    lemma_be_bytes_value(value as nat, 32);
    assert(g1_negation(point).skip(32) =~= be_bytes(value as nat, 32));
    assert(g1_negation(point).take(32) =~= point.take(32));
}

/// Law: the two moduli are the BN254 base field prime and the order of its scalar
/// field.
pub proof fn law_moduli_are_those_of_the_curve()
    ensures
        field_modulus()
            == 21888242871839275222246405745257275088696311157297823662689037894645226208583nat,
        scalar_modulus()
            == 21888242871839275222246405745257275088548364400416034343698204186575808495617nat,
{
    lemma_be_of_32(BN254_FIELD_MODULUS@);
    lemma_be_of_32(BN254_SCALAR_MODULUS@);
}

/// The value of 32 bytes, as four words of eight bytes.
proof fn lemma_be_of_32(s: Seq<u8>)
    requires
        s.len() == 32,
    ensures
        be_value(s) == ((word(s, 0) * 0x1_0000_0000_0000_0000 + word(s, 8))
            * 0x1_0000_0000_0000_0000 + word(s, 16)) * 0x1_0000_0000_0000_0000 + word(s, 24),
{
    lemma_be_word(s, 0);
    lemma_be_word(s, 8);
    lemma_be_word(s, 16);
    lemma_be_word(s, 24);
    assert(s.take(32) =~= s);
    assert(s.take(0) =~= Seq::<u8>::empty());
}

/// The number that the eight bytes from `i` on spell.
spec fn word(s: Seq<u8>, i: int) -> int {
    ((((((s[i] * 256 + s[i + 1]) * 256 + s[i + 2]) * 256 + s[i + 3]) * 256 + s[i + 4]) * 256 + s[i
        + 5]) * 256 + s[i + 6]) * 256 + s[i + 7]
}

proof fn lemma_be_word(s: Seq<u8>, i: int)
    requires
        0 <= i,
        i + 8 <= s.len(),
    ensures
        be_value(s.take(i + 8)) == be_value(s.take(i)) * 0x1_0000_0000_0000_0000 + word(s, i),
{
    lemma_be_push(s, i);
    lemma_be_push(s, i + 1);
    lemma_be_push(s, i + 2);
    lemma_be_push(s, i + 3);
    lemma_be_push(s, i + 4);
    lemma_be_push(s, i + 5);
    lemma_be_push(s, i + 6);
    lemma_be_push(s, i + 7);
}

proof fn lemma_be_push(s: Seq<u8>, i: int)
    requires
        0 <= i < s.len(),
    ensures
        be_value(s.take(i + 1)) == be_value(s.take(i)) * 256 + s[i],
{
    assert(s.take(i + 1).drop_last() =~= s.take(i));
}

/// Law: masking a digest takes its value modulo 2^253, that is, clears the top three
/// bits of its first byte and nothing else.
pub proof fn law_mask_is_remainder(digest: Seq<u8>)
    requires
        digest.len() > 0,
    ensures
        masked(digest).len() == digest.len(),
        masked(digest).skip(1) == digest.skip(1),
        be_value(masked(digest)) == be_value(digest) as int % (32 * weight(
            (digest.len() - 1) as nat,
        )),
{
    let w = weight((digest.len() - 1) as nat);
    let top = digest[0];
    let low = top & 0x1f;
    let rest = be_value(digest.skip(1)) as int;
    let field = masked(digest);
    assert(low == top % 32) by (bit_vector)
        requires
            low == top & 0x1f,
    ;
    assert(field.skip(1) =~= digest.skip(1));
    assert(field.skip(0) =~= field);
    assert(digest.skip(0) =~= digest);
    lemma_be_split_first(field, 0);
    lemma_be_split_first(digest, 0);
    lemma_be_bound(digest.skip(1));
    lemma_weight((digest.len() - 1) as nat);
    let q = (top / 32) as int;
    let t = top as int;
    let l = low as int;
    assert(t * w + rest == q * (32 * w) + (l * w + rest)) by (nonlinear_arith)
        requires
            t == 32 * q + l,
    ;
    assert(0 <= l * w + rest < 32 * w) by (nonlinear_arith)
        requires
            0 <= l <= 31,
            0 <= rest < w,
    ;
    vstd::arithmetic::div_mod::lemma_fundamental_div_mod_converse(
        t * w + rest,
        32 * w,
        q,
        l * w + rest,
    );
}

/// Law: the field element of a number is the number itself if it is below the field
/// prime, and otherwise its remainder modulo the scalar field order, in 32 bytes.
pub proof fn law_field_element_is_remainder(s: Seq<u8>)
    requires
        s.len() == 32,
    ensures
        field_element(s).len() == 32,
        be_value(s) < field_modulus() ==> be_value(field_element(s)) == be_value(s),
        be_value(s) >= field_modulus() ==> be_value(field_element(s)) == be_value(s)
            % scalar_modulus(),
{
    let v = be_value(s) as int;
    let r = scalar_modulus() as int;
    lemma_moduli();
    vstd::arithmetic::div_mod::lemma_mod_bound(v, r);
    lemma_be_bytes_value((v % r) as nat, 32);
}

/// Law: each public input stands for one part of the request, in the order root,
/// nullifier hash, recipient, fee. It does not change with the other parts.
pub proof fn law_public_inputs_are_in_order(
    root: Seq<u8>,
    nullifier_hash: Seq<u8>,
    recipient: Seq<u8>,
    fee: u64,
    other_root: Seq<u8>,
    other_nullifier_hash: Seq<u8>,
    other_recipient: Seq<u8>,
    other_fee: u64,
)
    ensures
        public_inputs(root, nullifier_hash, recipient, fee).len() == NUM_PUBLIC_INPUTS,
        public_inputs(root, nullifier_hash, recipient, fee)[0] == field_element(root),
        public_inputs(root, nullifier_hash, recipient, fee)[1] == field_element(nullifier_hash),
        public_inputs(root, nullifier_hash, recipient, fee)[2] == masked(
            keccak256_digest(recipient),
        ),
        public_inputs(root, nullifier_hash, recipient, fee)[3] == masked(
            keccak256_digest(be_bytes(fee as nat, 8)),
        ),
        public_inputs(root, nullifier_hash, recipient, fee)[0] == public_inputs(
            root,
            other_nullifier_hash,
            other_recipient,
            other_fee,
        )[0],
        public_inputs(root, nullifier_hash, recipient, fee)[1] == public_inputs(
            other_root,
            nullifier_hash,
            other_recipient,
            other_fee,
        )[1],
        public_inputs(root, nullifier_hash, recipient, fee)[2] == public_inputs(
            other_root,
            other_nullifier_hash,
            recipient,
            other_fee,
        )[2],
        public_inputs(root, nullifier_hash, recipient, fee)[3] == public_inputs(
            other_root,
            other_nullifier_hash,
            other_recipient,
            fee,
        )[3],
{
}

/// Law: a negated point keeps its length and `x`, and its `y` cancels the old one: a
/// zero `y` stays zero, and any other adds up with its negation to the field prime,
/// modulo 2^256.
pub proof fn law_negation_cancels(point: Seq<u8>)
    requires
        point.len() == 64,
    ensures
        ({
            let y = be_value(point.skip(32));
            let negated = be_value(g1_negation(point).skip(32));
            &&& g1_negation(point).len() == 64
            &&& g1_negation(point).take(32) == point.take(32)
            &&& y == 0 ==> negated == 0
            &&& y != 0 ==> (y + negated) as int % weight(32) == field_modulus()
        }),
{
    let y = be_value(point.skip(32)) as int;
    let p = field_modulus() as int;
    let m = weight(32);
    lemma_negated_y(point);
    lemma_moduli();
    if y != 0 {
        vstd::arithmetic::div_mod::lemma_add_mod_noop_right(y, p - y, m);
        vstd::arithmetic::div_mod::lemma_small_mod(p as nat, m as nat);
    }
}

/// Law: verification is the pairing check. Let `sums` start with `IC[0]` and go on by
/// adding, for each public input in turn, its product with its own point. Let `check`
/// hold -A next to B, alpha next to beta, the last sum next to gamma and C next to
/// delta. Then the verdict is whether the pairing operation says 1 of `check`, and
/// there is none where that operation fails.
pub proof fn law_verdict_is_the_pairing_check(
    key: VerifyingKey,
    attempt: Proof,
    inputs: Seq<Seq<u8>>,
    terms: Seq<Seq<u8>>,
    sums: Seq<Seq<u8>>,
    check: Seq<u8>,
)
    requires
        terms.len() == NUM_PUBLIC_INPUTS,
        sums.len() == NUM_PUBLIC_INPUTS + 1,
        sums[0] == key.ic@[0]@,
        forall|i: int|
            #![trigger terms[i]]
            0 <= i < NUM_PUBLIC_INPUTS ==> {
                &&& multiplication_output(key.ic@[i + 1]@ + inputs[i]) == Some(terms[i])
                &&& addition_output(sums[i] + terms[i]) == Some(sums[i + 1])
            },
        sums[NUM_PUBLIC_INPUTS as int].len() == 64,
        check.len() == 768,
        check.subrange(0, 32) == attempt.a@.subrange(0, 32),
        be_value(attempt.a@.subrange(32, 64)) == 0 ==> be_value(check.subrange(32, 64)) == 0,
        be_value(attempt.a@.subrange(32, 64)) != 0 ==> (be_value(attempt.a@.subrange(32, 64))
            + be_value(check.subrange(32, 64))) as int % weight(32) == field_modulus(),
        check.subrange(64, 192) == attempt.b@,
        check.subrange(192, 256) == key.alpha_g1@,
        check.subrange(256, 384) == key.beta_g2@,
        check.subrange(384, 448) == sums[NUM_PUBLIC_INPUTS as int],
        check.subrange(448, 576) == key.gamma_g2@,
        check.subrange(576, 640) == attempt.c@,
        check.subrange(640, 768) == key.delta_g2@,
    ensures
        match pairing_output(check) {
            Some(output) => key.verdict(attempt, inputs) == Some(be_value(output) == 1),
            None => key.verdict(attempt, inputs) is None,
        },
{
    let vk_x = sums[NUM_PUBLIC_INPUTS as int];
    lemma_sums_are_input_points(key, inputs, terms, sums, NUM_PUBLIC_INPUTS as nat);
    let a = attempt.a@;
    let old_y = a.subrange(32, 64);
    let new_y = check.subrange(32, 64);
    assert(a.skip(32) =~= old_y);
    assert(a.take(32) =~= a.subrange(0, 32));
    lemma_negated_y(a);
    lemma_be_bound(new_y);
    lemma_moduli();
    let y = be_value(old_y) as int;
    let z = be_value(new_y) as int;
    let m = weight(32);
    let p = field_modulus() as int;
    if y != 0 {
        let k = (y + z) / m;
        vstd::arithmetic::div_mod::lemma_fundamental_div_mod(y + z, m);
        assert(p - y == (-k) * m + z) by (nonlinear_arith)
            requires
                y + z == m * k + p,
        ;
        vstd::arithmetic::div_mod::lemma_fundamental_div_mod_converse(p - y, m, -k, z);
    }
    lemma_be_injective(g1_negation(a).skip(32), new_y);
    assert(g1_negation(a) =~= check.subrange(0, 32) + new_y);
    let b = attempt.b@;
    let alpha = key.alpha_g1@;
    let beta = key.beta_g2@;
    let gamma = key.gamma_g2@;
    let c = attempt.c@;
    let delta = key.delta_g2@;
    assert forall|i: int| 0 <= i < 768 implies check[i] == key.pairs(attempt, vk_x)[i] by {
        if i < 32 {
            assert(check[i] == check.subrange(0, 32)[i]);
        } else if i < 64 {
            assert(check[i] == new_y[i - 32]);
        } else if i < 192 {
            assert(check[i] == b[i - 64]) by {
                assert(check.subrange(64, 192)[i - 64] == check[i]);
            }
        } else if i < 256 {
            assert(check[i] == alpha[i - 192]) by {
                assert(check.subrange(192, 256)[i - 192] == check[i]);
            }
        } else if i < 384 {
            assert(check[i] == beta[i - 256]) by {
                assert(check.subrange(256, 384)[i - 256] == check[i]);
            }
        } else if i < 448 {
            assert(check[i] == vk_x[i - 384]) by {
                assert(check.subrange(384, 448)[i - 384] == check[i]);
            }
        } else if i < 576 {
            assert(check[i] == gamma[i - 448]) by {
                assert(check.subrange(448, 576)[i - 448] == check[i]);
            }
        } else if i < 640 {
            assert(check[i] == c[i - 576]) by {
                assert(check.subrange(576, 640)[i - 576] == check[i]);
            }
        } else {
            assert(check[i] == delta[i - 640]) by {
                assert(check.subrange(640, 768)[i - 640] == check[i]);
            }
        }
    }
    assert(check =~= key.pairs(attempt, vk_x));
}

proof fn lemma_sums_are_input_points(
    key: VerifyingKey,
    inputs: Seq<Seq<u8>>,
    terms: Seq<Seq<u8>>,
    sums: Seq<Seq<u8>>,
    n: nat,
)
    requires
        terms.len() >= n,
        sums.len() >= n + 1,
        sums[0] == key.ic@[0]@,
        forall|i: int|
            #![trigger terms[i]]
            0 <= i < n ==> {
                &&& multiplication_output(key.ic@[i + 1]@ + inputs[i]) == Some(terms[i])
                &&& addition_output(sums[i] + terms[i]) == Some(sums[i + 1])
            },
    ensures
        key.input_point(inputs, n) == Some(sums[n as int]),
    decreases n,
{
    if n > 0 {
        let m = n - 1;
        lemma_sums_are_input_points(key, inputs, terms, sums, m as nat);
        let term = terms[m];
        assert(addition_output(sums[m] + term) == Some(sums[m + 1]));
    }
}

/// Law: there is no verdict where a curve operation fails on the way: where the point
/// of some input cannot be multiplied by it, or the product cannot be added to the
/// sum so far.
pub proof fn law_no_verdict_without_the_sum(
    key: VerifyingKey,
    attempt: Proof,
    inputs: Seq<Seq<u8>>,
    terms: Seq<Seq<u8>>,
    sums: Seq<Seq<u8>>,
    n: nat,
)
    requires
        n < NUM_PUBLIC_INPUTS,
        terms.len() >= n,
        sums.len() >= n + 1,
        sums[0] == key.ic@[0]@,
        forall|i: int|
            #![trigger terms[i]]
            0 <= i < n ==> {
                &&& multiplication_output(key.ic@[i + 1]@ + inputs[i]) == Some(terms[i])
                &&& addition_output(sums[i] + terms[i]) == Some(sums[i + 1])
            },
        match multiplication_output(key.ic@[n as int + 1]@ + inputs[n as int]) {
            Some(term) => addition_output(sums[n as int] + term) is None,
            None => true,
        },
    ensures
        key.verdict(attempt, inputs) is None,
{
    lemma_sums_are_input_points(key, inputs, terms, sums, n);
    key.lemma_failure_lasts(inputs, n + 1);
}

/// Law: verification reports a verdict as it is, and a missing one as a failed curve
/// operation.
pub proof fn law_outcome_reports_the_verdict(verdict: Option<bool>)
    ensures
        verdict matches Some(valid) ==> outcome(verdict) == Ok::<bool, ShieldedError>(valid),
        verdict is None ==> outcome(verdict) == Err::<bool, ShieldedError>(
            ShieldedError::CurveOperationFailed,
        ),
{
}

/// Law: the bytes of a list of arrays are those of each array, in its place.
pub proof fn law_digests_keep_their_places(arrays: Seq<[u8; 32]>, i: int)
    requires
        0 <= i < arrays.len(),
    ensures
        digests(arrays).len() == arrays.len(),
        digests(arrays)[i] == arrays[i]@,
{
}

/// Law: a key that was taken over holds each point under the name under which it was
/// handed in, and the points of the inputs in their order.
pub proof fn law_key_keeps_its_input(key: VerifyingKey, input: VerifyingKeyInput, i: int)
    requires
        key.is_of_input(input),
        0 <= i < NUM_IC_POINTS,
    ensures
        key.alpha_g1 == input.alpha_g1,
        key.beta_g2 == input.beta_g2,
        key.gamma_g2 == input.gamma_g2,
        key.delta_g2 == input.delta_g2,
        input.ic@.len() == NUM_IC_POINTS,
        key.ic@[i] == input.ic@[i],
{
}

} // verus!
