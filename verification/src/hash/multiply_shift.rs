//! Multiply-shift, keyed, for the index of the bucket bank.
//!
//! Two multiplies and an add. It is not cryptographic: it does not resist key recovery from
//! observed outputs. Anything that needs that goes to [`SipHasher24`](super::SipHasher24).

use vstd::arithmetic::div_mod::{lemma_add_mod_noop, lemma_fundamental_div_mod};
use vstd::arithmetic::power2::pow2;
use vstd::prelude::*;

use crate::bytes::read_little_endian;

verus! {

/// Keyed multiply-shift over the two 64-bit words of a 16-byte address.
#[derive(Clone, Copy)]
pub struct MultiplyShift {
    k0: u64,
    k1: u64,
}

/// A key word made odd.
pub open spec fn made_odd(word: u64) -> u64 {
    if word % 2 == 0 {
        (word + 1) as u64
    } else {
        word
    }
}

/// The hash of an address under two multipliers: the low 64 bits of `k0 * w0 + k1 * w1`.
pub open spec fn product_hash(k0: u64, k1: u64, addr: Seq<u8>) -> int {
    let w0 = crate::bytes::little_endian(addr.subrange(0, 8));
    let w1 = crate::bytes::little_endian(addr.subrange(8, 16));
    (k0 * w0 + k1 * w1) % 0x1_0000_0000_0000_0000
}

impl MultiplyShift {
    /// The two multipliers.
    pub closed spec fn multipliers(self) -> (u64, u64) {
        (self.k0, self.k1)
    }

    /// The two key words, forced odd: an even multiplier breaks the guarantee silently, and one
    /// in two random words is even.
    pub fn new(key: [u64; 2]) -> (hasher: Self)
        ensures
            hasher.multipliers() == (made_odd(key[0]), made_odd(key[1])),
    {
        let k0: u64 = key[0];
        let k1: u64 = key[1];
        assert((k0 | 1) == (if k0 % 2 == 0 { k0 + 1 } else { k0 as int }) && (k1 | 1) == (if k1 % 2
            == 0 { k1 + 1 } else { k1 as int })) by (bit_vector);
        MultiplyShift { k0: k0 | 1, k1: k1 | 1 }
    }

    /// A hasher from a 16-byte secret.
    pub fn from_bytes(key: [u8; 16]) -> (hasher: Self)
        ensures
            hasher.multipliers() == (
                made_odd(super::key::words_of(key@).0),
                made_odd(super::key::words_of(key@).1),
            ),
    {
        Self::new(super::key::key_words(key))
    }

    /// The hash of one address. Sixteen bytes exactly, because the only thing this indexes is a
    /// source address.
    pub fn hash(&self, addr: &[u8; 16]) -> (hash: u64)
        ensures
            hash == product_hash(self.multipliers().0, self.multipliers().1, addr@),
    {
        let w0: u64 = read_little_endian(addr, 0, 8);
        let w1: u64 = read_little_endian(addr, 8, 8);
        proof {
            lemma_add_mod_noop(self.k0 * w0, self.k1 * w1, 0x1_0000_0000_0000_0000);
        }
        self.k0.wrapping_mul(w0).wrapping_add(self.k1.wrapping_mul(w1))
    }
}

/// An odd multiplier loses nothing of what it multiplies.
proof fn lemma_odd_multiplier(k: int, d: int, bits: nat)
    requires
        k % 2 == 1,
        (k * d) % (pow2(bits) as int) == 0,
    ensures
        d % (pow2(bits) as int) == 0,
    decreases bits,
{
    vstd::arithmetic::power2::lemma_pow2_pos(bits);
    if bits == 0 {
        vstd::arithmetic::power2::lemma2_to64();
    } else {
        let half = pow2((bits - 1) as nat) as int;
        vstd::arithmetic::power2::lemma_pow2_unfold(bits);
        vstd::arithmetic::power2::lemma_pow2_pos((bits - 1) as nat);
        let q = (k * d) / (pow2(bits) as int);
        lemma_fundamental_div_mod(k * d, pow2(bits) as int);
        assert(k * d == 2 * (half * q)) by (nonlinear_arith)
            requires
                k * d == (2 * half) * q,
        ;
        assert(d % 2 == 0) by (nonlinear_arith)
            requires
                k % 2 == 1,
                k * d == 2 * (half * q),
        {
            let h = k / 2;
            assert(k == 2 * h + 1);
            assert(k * d == 2 * (h * d) + d);
        }
        let e = d / 2;
        assert(k * e == half * q) by (nonlinear_arith)
            requires
                k * d == 2 * (half * q),
                d == 2 * e,
        ;
        vstd::arithmetic::div_mod::lemma_mod_multiples_basic(q, half);
        assert((k * e) % half == 0) by {
            assert(half * q == q * half) by (nonlinear_arith);
        }
        lemma_odd_multiplier(k, e, (bits - 1) as nat);
        let r = e / half;
        lemma_fundamental_div_mod(e, half);
        assert(d == r * (2 * half)) by (nonlinear_arith)
            requires
                d == 2 * e,
                e == half * r,
        ;
        vstd::arithmetic::div_mod::lemma_mod_multiples_basic(r, 2 * half);
    }
}

/// Two addresses that agree in their first eight bytes, as every two IPv4-mapped ones do, hash
/// apart unless they are the same address: an odd multiplier is a permutation of the words.
pub proof fn addresses_that_share_a_half_hash_apart(k0: u64, k1: u64, a: Seq<u8>, b: Seq<u8>)
    requires
        a.len() == 16,
        b.len() == 16,
        a.subrange(0, 8) == b.subrange(0, 8),
        k1 % 2 == 1,
        product_hash(k0, k1, a) == product_hash(k0, k1, b),
    ensures
        a == b,
{
    let modulus = 0x1_0000_0000_0000_0000int;
    let w0 = crate::bytes::little_endian(a.subrange(0, 8)) as int;
    let x = crate::bytes::little_endian(a.subrange(8, 16)) as int;
    let y = crate::bytes::little_endian(b.subrange(8, 16)) as int;
    crate::bytes::lemma_little_endian_fits(a.subrange(8, 16));
    crate::bytes::lemma_little_endian_fits(b.subrange(8, 16));
    let left = k0 * w0 + k1 * x;
    let right = k0 * w0 + k1 * y;
    lemma_fundamental_div_mod(left, modulus);
    lemma_fundamental_div_mod(right, modulus);
    let q = left / modulus - right / modulus;
    assert(k1 * (x - y) == q * modulus) by (nonlinear_arith)
        requires
            left == modulus * (left / modulus) + left % modulus,
            right == modulus * (right / modulus) + right % modulus,
            left % modulus == right % modulus,
            left == k0 * w0 + k1 * x,
            right == k0 * w0 + k1 * y,
            q == left / modulus - right / modulus,
    ;
    vstd::arithmetic::power2::lemma2_to64();
    vstd::arithmetic::div_mod::lemma_mod_multiples_basic(q, modulus);
    assert(pow2(64) == modulus);
    lemma_odd_multiplier(k1 as int, x - y, 64);
    assert(x == y);
    crate::bytes::lemma_little_endian_injective(a.subrange(8, 16), b.subrange(8, 16));
    assert(a =~= a.subrange(0, 8) + a.subrange(8, 16));
    assert(b =~= b.subrange(0, 8) + b.subrange(8, 16));
}

/// The hash in the bytes of the address: each half is a number, low byte first, the first half
/// times the first multiplier and the second times the second are added, and what does not fit
/// sixty-four bits is dropped.
pub proof fn the_hash_in_the_bytes_of_the_address(k0: u64, k1: u64, addr: Seq<u8>)
    requires
        addr.len() == 16,
    ensures
        ({
            let low = addr[0] + 0x100 * addr[1] + 0x1_0000 * addr[2] + 0x100_0000 * addr[3]
                + 0x1_0000_0000 * addr[4] + 0x100_0000_0000 * addr[5] + 0x1_0000_0000_0000 * addr[6]
                + 0x100_0000_0000_0000 * addr[7];
            let high = addr[8] + 0x100 * addr[9] + 0x1_0000 * addr[10] + 0x100_0000 * addr[11]
                + 0x1_0000_0000 * addr[12] + 0x100_0000_0000 * addr[13] + 0x1_0000_0000_0000
                * addr[14] + 0x100_0000_0000_0000 * addr[15];
            product_hash(k0, k1, addr) == (k0 * low + k1 * high) % 0x1_0000_0000_0000_0000
        }),
{
    super::key::lemma_eight_bytes(addr.subrange(0, 8));
    super::key::lemma_eight_bytes(addr.subrange(8, 16));
}

/// A multiplier is the key word with its lowest bit set, and otherwise the key word.
pub proof fn a_multiplier_is_the_key_made_odd(word: u64)
    ensures
        made_odd(word) % 2 == 1,
        made_odd(word) / 2 == word / 2,
{
}

} // verus!
