//! SipHash-2-4: every index an attacker can influence is keyed with a secret drawn at boot.

use vstd::prelude::*;

use crate::bytes::read_little_endian;

verus! {

/// Keyed 64-bit SipHash-2-4. The key is the boot secret: two attacker-chosen inputs that collide
/// under one key do not collide under the next boot.
#[derive(Clone, Copy)]
pub struct SipHasher24 {
    k0: u64,
    k1: u64,
}

/// The four words of the permutation.
#[derive(Clone, Copy)]
pub struct SipState {
    pub v0: u64,
    pub v1: u64,
    pub v2: u64,
    pub v3: u64,
}

/// A word rotated left.
pub open spec fn rotated(word: u64, by: u64) -> u64 {
    (word << by) | (word >> ((64 - by) as u64))
}

fn rotate(word: u64, by: u64) -> (turned: u64)
    requires
        0 < by < 64,
    ensures
        turned == rotated(word, by),
{
    (word << by) | (word >> (64 - by))
}

/// The initial state of a key.
pub open spec fn sip_init(k0: u64, k1: u64) -> SipState {
    SipState {
        v0: k0 ^ 0x736f_6d65_7073_6575,
        v1: k1 ^ 0x646f_7261_6e64_6f6d,
        v2: k0 ^ 0x6c79_6765_6e65_7261,
        v3: k1 ^ 0x7465_6462_7974_6573,
    }
}

/// One round of the permutation.
pub open spec fn sip_round(s: SipState) -> SipState {
    let a0 = s.v0.wrapping_add(s.v1);
    let a1 = rotated(s.v1, 13) ^ a0;
    let a2 = s.v2.wrapping_add(s.v3);
    let a3 = rotated(s.v3, 16) ^ a2;
    let b0 = rotated(a0, 32).wrapping_add(a3);
    let b2 = a2.wrapping_add(a1);
    SipState {
        v0: b0,
        v1: rotated(a1, 17) ^ b2,
        v2: rotated(b2, 32),
        v3: rotated(a3, 21) ^ b0,
    }
}

/// One block of the message mixed into the state: two rounds.
pub open spec fn sip_absorb(s: SipState, block: u64) -> SipState {
    let mixed = sip_round(sip_round(SipState { v3: s.v3 ^ block, ..s }));
    SipState { v0: mixed.v0 ^ block, ..mixed }
}

/// The blocks of a message: its whole words, then one that carries the bytes left over in the
/// low positions and the length, modulo 256, in the top one.
pub open spec fn sip_block(bytes: Seq<u8>, i: int) -> u64 {
    if i < bytes.len() / 8 {
        crate::bytes::little_endian(bytes.subrange(8 * i, 8 * i + 8)) as u64
    } else {
        (crate::bytes::little_endian(bytes.skip(8 * i)) + 0x100_0000_0000_0000 * (bytes.len()
            % 256)) as u64
    }
}

/// The state after the first `blocks` blocks of a message.
pub open spec fn sip_absorbed(start: SipState, bytes: Seq<u8>, blocks: int) -> SipState
    decreases blocks,
{
    if blocks <= 0 {
        start
    } else {
        sip_absorb(sip_absorbed(start, bytes, blocks - 1), sip_block(bytes, blocks - 1))
    }
}

/// The hash a state ends in: four rounds, and the four words folded into one.
pub open spec fn sip_finish(s: SipState) -> u64 {
    let end = sip_round(
        sip_round(sip_round(sip_round(SipState { v2: s.v2 ^ 0xff, ..s }))),
    );
    end.v0 ^ end.v1 ^ end.v2 ^ end.v3
}

/// SipHash-2-4 of a message.
pub open spec fn siphash24(k0: u64, k1: u64, bytes: Seq<u8>) -> u64 {
    sip_finish(sip_absorbed(sip_init(k0, k1), bytes, bytes.len() as int / 8 + 1))
}

fn round(s: SipState) -> (next: SipState)
    ensures
        next == sip_round(s),
{
    let a0: u64 = s.v0.wrapping_add(s.v1);
    let a1: u64 = rotate(s.v1, 13) ^ a0;
    let a2: u64 = s.v2.wrapping_add(s.v3);
    let a3: u64 = rotate(s.v3, 16) ^ a2;
    let b0: u64 = rotate(a0, 32).wrapping_add(a3);
    let b2: u64 = a2.wrapping_add(a1);
    SipState { v0: b0, v1: rotate(a1, 17) ^ b2, v2: rotate(b2, 32), v3: rotate(a3, 21) ^ b0 }
}

fn absorb(s: SipState, block: u64) -> (next: SipState)
    ensures
        next == sip_absorb(s, block),
{
    let mixed: SipState = round(
        round(SipState { v0: s.v0, v1: s.v1, v2: s.v2, v3: s.v3 ^ block }),
    );
    SipState { v0: mixed.v0 ^ block, v1: mixed.v1, v2: mixed.v2, v3: mixed.v3 }
}

impl SipHasher24 {
    /// The two key words.
    pub closed spec fn words(self) -> (u64, u64) {
        (self.k0, self.k1)
    }

    /// A hasher from two key words.
    pub fn new(key: [u64; 2]) -> (hasher: Self)
        ensures
            hasher.words() == (key[0], key[1]),
    {
        SipHasher24 { k0: key[0], k1: key[1] }
    }

    /// A hasher from a 16-byte secret, read as two little-endian words.
    pub fn from_bytes(key: [u8; 16]) -> (hasher: Self)
        ensures
            hasher.words() == super::key::words_of(key@),
    {
        Self::new(super::key::key_words(key))
    }

    /// The hash of a message.
    pub fn hash(&self, bytes: &[u8]) -> (hash: u64)
        ensures
            hash == siphash24(self.words().0, self.words().1, bytes@),
    {
        let ghost start = sip_init(self.k0, self.k1);
        let mut state: SipState = SipState {
            v0: self.k0 ^ 0x736f_6d65_7073_6575,
            v1: self.k1 ^ 0x646f_7261_6e64_6f6d,
            v2: self.k0 ^ 0x6c79_6765_6e65_7261,
            v3: self.k1 ^ 0x7465_6462_7974_6573,
        };
        let len: usize = bytes.len();
        let blocks: usize = len / 8;
        let mut i: usize = 0;
        while i < blocks
            invariant
                len == bytes@.len(),
                blocks == len / 8,
                i <= blocks,
                state == sip_absorbed(start, bytes@, i as int),
            decreases blocks - i,
        {
            let block: u64 = read_little_endian(bytes, 8 * i, 8);
            assert(block == sip_block(bytes@, i as int));
            state = absorb(state, block);
            i += 1;
        }
        // The last block carries the length: without it "ab" and "ab\0" would hash the same.
        let tail: u64 = read_little_endian(bytes, 8 * blocks, bytes.len() % 8);
        proof {
            let rest = bytes@.skip(8 * blocks);
            assert(bytes@.subrange(8 * blocks, 8 * blocks + bytes@.len() % 8) =~= rest);
            crate::bytes::lemma_little_endian_fits(rest);
        }
        let block: u64 = tail + 0x100_0000_0000_0000 * ((bytes.len() % 256) as u64);
        state = absorb(state, block);
        let end: SipState = round(
            round(
                round(round(SipState { v0: state.v0, v1: state.v1, v2: state.v2 ^ 0xff, v3: state.v3 })),
            ),
        );
        end.v0 ^ end.v1 ^ end.v2 ^ end.v3
    }
}

/// The last block of a message gives back its length and the bytes left over.
proof fn lemma_last_block(a: Seq<u8>, b: Seq<u8>)
    requires
        a.len() / 8 == b.len() / 8,
        sip_block(a, a.len() as int / 8) == sip_block(b, a.len() as int / 8),
    ensures
        a.len() == b.len(),
        a.skip(8 * (a.len() as int / 8)) == b.skip(8 * (a.len() as int / 8)),
{
    let blocks = a.len() as int / 8;
    let tail_a = a.skip(8 * blocks);
    let tail_b = b.skip(8 * blocks);
    crate::bytes::lemma_little_endian_fits(tail_a);
    crate::bytes::lemma_little_endian_fits(tail_b);
    let x = crate::bytes::little_endian(tail_a);
    let y = crate::bytes::little_endian(tail_b);
    let m = a.len() % 256;
    let n = b.len() % 256;
    assert(x + 0x100_0000_0000_0000 * m <= u64::MAX);
    assert(y + 0x100_0000_0000_0000 * n <= u64::MAX);
    assert(m == n && x == y);
    crate::bytes::lemma_little_endian_injective(tail_a, tail_b);
}

/// The whole blocks of a message give back the bytes they were read from.
proof fn lemma_whole_block(a: Seq<u8>, b: Seq<u8>, i: int)
    requires
        a.len() == b.len(),
        0 <= i < a.len() / 8,
        sip_block(a, i) == sip_block(b, i),
    ensures
        a.subrange(8 * i, 8 * i + 8) == b.subrange(8 * i, 8 * i + 8),
{
    let word_a = a.subrange(8 * i, 8 * i + 8);
    let word_b = b.subrange(8 * i, 8 * i + 8);
    crate::bytes::lemma_little_endian_fits(word_a);
    crate::bytes::lemma_little_endian_fits(word_b);
    crate::bytes::lemma_little_endian_injective(word_a, word_b);
}

/// The blocks of a message determine it: no two messages are absorbed as the same blocks, not
/// even where one is the other followed by zeros.
pub proof fn sip_blocks_determine_the_message(a: Seq<u8>, b: Seq<u8>)
    requires
        a.len() / 8 == b.len() / 8,
        forall|i: int| 0 <= i <= a.len() / 8 ==> #[trigger] sip_block(a, i) == sip_block(b, i),
    ensures
        a == b,
{
    let blocks = a.len() as int / 8;
    assert(sip_block(a, blocks) == sip_block(b, blocks));
    lemma_last_block(a, b);
    assert forall|j: int| 0 <= j < a.len() implies a[j] == b[j] by {
        let i = j / 8;
        if i < blocks {
            assert(sip_block(a, i) == sip_block(b, i));
            lemma_whole_block(a, b, i);
            assert(a.subrange(8 * i, 8 * i + 8)[j - 8 * i] == a[j]);
            assert(b.subrange(8 * i, 8 * i + 8)[j - 8 * i] == b[j]);
        } else {
            assert(a.skip(8 * blocks)[j - 8 * blocks] == a[j]);
            assert(b.skip(8 * blocks)[j - 8 * blocks] == b[j]);
        }
    }
    assert(a =~= b);
}

} // verus!
