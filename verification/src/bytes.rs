//! Big-endian byte strings and their values.

use vstd::arithmetic::power::lemma_pow0;
use vstd::arithmetic::power::lemma_pow_adds;
use vstd::arithmetic::power::lemma_pow_positive;
use vstd::arithmetic::power::pow;
use vstd::prelude::*;

verus! {

/// The number that `s` spells in base 256, most significant byte first.
pub open spec fn be_value(s: Seq<u8>) -> nat
    decreases s.len(),
{
    if s.len() == 0 {
        0
    } else {
        be_value(s.drop_last()) * 256 + s.last() as nat
    }
}

/// The `n` low bytes of `value`, most significant first.
pub open spec fn be_bytes(value: nat, n: nat) -> Seq<u8>
    decreases n,
{
    if n == 0 {
        Seq::empty()
    } else {
        be_bytes(value / 256, (n - 1) as nat).push((value % 256) as u8)
    }
}

/// `n` zero bytes.
pub open spec fn zero_bytes(n: nat) -> Seq<u8> {
    Seq::new(n, |i: int| 0u8)
}

/// The weight of the byte that is followed by `n` others.
pub open spec fn weight(n: nat) -> int {
    pow(256, n)
}

pub proof fn lemma_weight(n: nat)
    ensures
        weight(0) == 1,
        weight(n) > 0,
        weight(n + 1) == 256 * weight(n),
{
    lemma_pow0(256);
    lemma_pow_positive(256, n);
    lemma_pow_adds(256, 1, n);
    vstd::arithmetic::power::lemma_pow1(256);
}

/// A byte string of length `n` spells a number below `256^n`.
pub proof fn lemma_be_bound(s: Seq<u8>)
    ensures
        be_value(s) < weight(s.len()),
    decreases s.len(),
{
    lemma_weight(0);
    if s.len() > 0 {
        lemma_be_bound(s.drop_last());
        lemma_weight((s.len() - 1) as nat);
    }
}

/// The value of a concatenation.
pub proof fn lemma_be_concat(a: Seq<u8>, b: Seq<u8>)
    ensures
        be_value(a + b) == be_value(a) * weight(b.len()) + be_value(b),
    decreases b.len(),
{
    lemma_weight(0);
    if b.len() == 0 {
        assert(a + b =~= a);
        assert(be_value(a) * 1 == be_value(a));
    } else {
        let c = b.drop_last();
        assert((a + b).drop_last() =~= a + c);
        lemma_be_concat(a, c);
        lemma_weight(c.len());
        assert(be_value(a) * (256 * weight(c.len())) == be_value(a) * weight(c.len()) * 256)
            by (nonlinear_arith);
    }
}

/// The value of the bytes from `i` on, split at the first of them.
pub proof fn lemma_be_split_first(s: Seq<u8>, i: int)
    requires
        0 <= i < s.len(),
    ensures
        be_value(s.skip(i)) == s[i] as nat * weight((s.len() - i - 1) as nat) + be_value(
            s.skip(i + 1),
        ),
{
    let head = seq![s[i]];
    assert(s.skip(i) =~= head + s.skip(i + 1));
    lemma_be_concat(head, s.skip(i + 1));
    assert(head.drop_last() =~= Seq::<u8>::empty());
    assert(be_value(head.drop_last()) == 0);
    assert(be_value(head) == s[i] as nat);
}

/// Strings of zero bytes, and only those, spell zero.
pub proof fn lemma_be_zero(s: Seq<u8>)
    ensures
        be_value(s) == 0 <==> s == zero_bytes(s.len()),
    decreases s.len(),
{
    if s.len() == 0 {
        assert(s =~= zero_bytes(0));
    } else {
        let c = s.drop_last();
        lemma_be_zero(c);
        if be_value(s) == 0 {
            assert(s =~= zero_bytes(s.len())) by {
                assert forall|i: int| 0 <= i < s.len() implies s[i] == 0 by {
                    if i < c.len() {
                        assert(s[i] == c[i]);
                    }
                }
            }
        }
        if s == zero_bytes(s.len()) {
            assert(c =~= zero_bytes(c.len()));
        }
    }
}

/// Two byte strings of one length that spell the same number are the same.
pub proof fn lemma_be_injective(a: Seq<u8>, b: Seq<u8>)
    requires
        a.len() == b.len(),
        be_value(a) == be_value(b),
    ensures
        a == b,
    decreases a.len(),
{
    if a.len() > 0 {
        assert(a.last() == b.last() && be_value(a.drop_last()) == be_value(b.drop_last()));
        lemma_be_injective(a.drop_last(), b.drop_last());
        assert(a =~= a.drop_last().push(a.last()));
        assert(b =~= b.drop_last().push(b.last()));
    } else {
        assert(a =~= b);
    }
}

/// `be_bytes` and `be_value` undo each other, within `n` bytes.
pub proof fn lemma_be_bytes_value(value: nat, n: nat)
    ensures
        be_bytes(value, n).len() == n,
        value < weight(n) ==> be_value(be_bytes(value, n)) == value,
    decreases n,
{
    lemma_weight(0);
    if n > 0 {
        let m = (n - 1) as nat;
        lemma_weight(m);
        lemma_be_bytes_value(value / 256, m);
        let s = be_bytes(value, n);
        assert(s.drop_last() =~= be_bytes(value / 256, m));
        if value < weight(n) {
            assert(value / 256 < weight(m));
        }
    }
}

/// The first byte in which two strings of one length differ decides which spells
/// the smaller number.
pub proof fn lemma_be_less(a: Seq<u8>, b: Seq<u8>, i: int)
    requires
        a.len() == b.len(),
        0 <= i < a.len(),
        a.take(i) == b.take(i),
        a[i] < b[i],
    ensures
        be_value(a) < be_value(b),
{
    let w = weight((a.len() - i - 1) as nat);
    assert(a =~= a.take(i) + a.skip(i));
    assert(b =~= b.take(i) + b.skip(i));
    lemma_be_concat(a.take(i), a.skip(i));
    lemma_be_concat(b.take(i), b.skip(i));
    lemma_be_split_first(a, i);
    lemma_be_split_first(b, i);
    lemma_be_bound(a.skip(i + 1));
    lemma_weight((a.len() - i - 1) as nat);
    let x = a[i] as int;
    let y = b[i] as int;
    assert(x * w + w <= y * w) by (nonlinear_arith)
        requires
            x + 1 <= y,
            w > 0,
    ;
}

/// Whether every byte of `s` is zero.
pub fn is_zero(s: &[u8]) -> (r: bool)
    ensures
        r == (s@ == zero_bytes(s@.len())),
{
    let mut i: usize = 0;
    while i < s.len()
        invariant
            i <= s.len(),
            forall|j: int| 0 <= j < i ==> s@[j] == 0,
        decreases s.len() - i,
    {
        if s[i] != 0 {
            assert(zero_bytes(s@.len())[i as int] == 0);
            return false;
        }
        i += 1;
    }
    assert(s@ =~= zero_bytes(s@.len()));
    true
}

/// Whether two digests are the same.
pub fn digest_eq(a: &[u8; 32], b: &[u8; 32]) -> (r: bool)
    ensures
        r == (a@ == b@),
{
    let mut i: usize = 0;
    while i < 32
        invariant
            i <= 32,
            forall|j: int| 0 <= j < i ==> a@[j] == b@[j],
        decreases 32 - i,
    {
        if a[i] != b[i] {
            return false;
        }
        i += 1;
    }
    assert(a@ =~= b@);
    true
}

/// Whether `a` spells a smaller number than `b`.
pub fn is_below(a: &[u8; 32], b: &[u8; 32]) -> (r: bool)
    ensures
        r == (be_value(a@) < be_value(b@)),
{
    let mut i: usize = 0;
    while i < 32
        invariant
            i <= 32,
            a@.take(i as int) == b@.take(i as int),
        decreases 32 - i,
    {
        if a[i] != b[i] {
            proof {
                if a@[i as int] < b@[i as int] {
                    lemma_be_less(a@, b@, i as int);
                } else {
                    lemma_be_less(b@, a@, i as int);
                }
            }
            return a[i] < b[i];
        }
        assert(a@.take(i + 1) =~= a@.take(i as int).push(a@[i as int]));
        assert(b@.take(i + 1) =~= b@.take(i as int).push(b@[i as int]));
        i += 1;
    }
    assert(a@.take(32) =~= a@);
    assert(b@.take(32) =~= b@);
    false
}

/// Eight bytes hold every 64-bit number.
pub proof fn lemma_weight_of_eight()
    ensures
        weight(8) == 0x1_0000_0000_0000_0000,
{
    lemma_weight(0);
    lemma_weight(1);
    lemma_weight(2);
    lemma_weight(3);
    lemma_weight(4);
    lemma_weight(5);
    lemma_weight(6);
    lemma_weight(7);
}

/// The 8-byte big-endian encoding of `value`.
pub fn encode_u64(value: u64) -> (encoded: [u8; 8])
    ensures
        encoded@ == be_bytes(value as nat, 8),
        be_value(encoded@) == value,
{
    let mut encoded = [0u8; 8];
    let mut rest: u64 = value;
    let mut i: usize = 8;
    assert(be_bytes(value as nat, 8) =~= be_bytes(value as nat, 8) + encoded@.skip(8));
    while i > 0
        invariant
            i <= 8,
            be_bytes(value as nat, 8) == be_bytes(rest as nat, i as nat) + encoded@.skip(i as int),
        decreases i,
    {
        let ghost before = encoded@;
        let ghost digits = be_bytes(rest as nat, i as nat);
        i -= 1;
        encoded[i] = (rest % 256) as u8;
        rest = rest / 256;
        proof {
            let j = i as int;
            assert(encoded@.skip(j) =~= seq![encoded@[j]] + before.skip(j + 1));
            assert(digits + before.skip(j + 1) =~= be_bytes(rest as nat, i as nat)
                + encoded@.skip(j));
        }
    }
    assert(encoded@.skip(0) =~= encoded@);
    assert(be_bytes(rest as nat, 0) + encoded@.skip(0) =~= encoded@);
    proof {
        lemma_weight_of_eight();
        lemma_be_bytes_value(value as nat, 8);
    }
    encoded
}

/// `a` followed by `b`.
pub fn join_bytes(a: &[u8], b: &[u8]) -> (r: Vec<u8>)
    ensures
        r@ == a@ + b@,
{
    let mut r: Vec<u8> = Vec::new();
    r.extend_from_slice(a);
    r.extend_from_slice(b);
    assert(r@ =~= a@ + b@);
    r
}

} // verus!
