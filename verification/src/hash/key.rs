//! The byte order of a secret, decided in one place.

use vstd::prelude::*;

use crate::bytes::read_little_endian;

verus! {

/// The two words of a secret: its halves, each least significant byte first.
pub open spec fn words_of(key: Seq<u8>) -> (u64, u64) {
    (
        crate::bytes::little_endian(key.subrange(0, 8)) as u64,
        crate::bytes::little_endian(key.subrange(8, 16)) as u64,
    )
}

/// Reads a 16-byte secret as the two little-endian words both keyed hashes take.
pub fn key_words(key: [u8; 16]) -> (words: [u64; 2])
    ensures
        (words[0], words[1]) == words_of(key@),
        words[0] == crate::bytes::little_endian(key@.subrange(0, 8)),
        words[1] == crate::bytes::little_endian(key@.subrange(8, 16)),
{
    let k0: u64 = read_little_endian(&key, 0, 8);
    let k1: u64 = read_little_endian(&key, 8, 8);
    [k0, k1]
}

/// Eight bytes as a number, each weighing 256 times the one before it.
pub(crate) proof fn lemma_eight_bytes(bytes: Seq<u8>)
    requires
        bytes.len() == 8,
    ensures
        crate::bytes::little_endian(bytes) == bytes[0] + 0x100 * bytes[1] + 0x1_0000 * bytes[2]
            + 0x100_0000 * bytes[3] + 0x1_0000_0000 * bytes[4] + 0x100_0000_0000 * bytes[5]
            + 0x1_0000_0000_0000 * bytes[6] + 0x100_0000_0000_0000 * bytes[7],
{
    reveal_with_fuel(crate::bytes::little_endian, 9);
}

/// The words of a secret in its bytes: the first eight are the first word and the others the
/// second, low byte first.
pub proof fn the_words_in_the_bytes_of_the_secret(key: Seq<u8>)
    requires
        key.len() == 16,
    ensures
        words_of(key).0 == key[0] + 0x100 * key[1] + 0x1_0000 * key[2] + 0x100_0000 * key[3]
            + 0x1_0000_0000 * key[4] + 0x100_0000_0000 * key[5] + 0x1_0000_0000_0000 * key[6]
            + 0x100_0000_0000_0000 * key[7],
        words_of(key).1 == key[8] + 0x100 * key[9] + 0x1_0000 * key[10] + 0x100_0000 * key[11]
            + 0x1_0000_0000 * key[12] + 0x100_0000_0000 * key[13] + 0x1_0000_0000_0000 * key[14]
            + 0x100_0000_0000_0000 * key[15],
{
    lemma_eight_bytes(key.subrange(0, 8));
    lemma_eight_bytes(key.subrange(8, 16));
}

} // verus!
