//! The hashes, against published vectors and against their definition.

use lorica::{fast_hash, key_words, MultiplyShift, SipHasher24};

fn counting_key() -> [u8; 16] {
    [0, 1, 2, 3, 4, 5, 6, 7, 8, 9, 10, 11, 12, 13, 14, 15]
}

/// The vectors its authors published: the key and the message count up from zero.
#[test]
fn siphash_gives_the_published_vectors() {
    let hasher = SipHasher24::from_bytes(counting_key());
    let message: Vec<u8> = (0..64).collect();
    assert_eq!(hasher.hash(&message[..0]), 0x726f_db47_dd0e_0e31);
    assert_eq!(hasher.hash(&message[..1]), 0x74f8_39c5_93dc_67fd);
    assert_eq!(hasher.hash(&message[..2]), 0x0d6c_8009_d9a9_4f5a);
    assert_eq!(hasher.hash(&message[..7]), 0xab02_00f5_8b01_d137);
    assert_eq!(hasher.hash(&message[..8]), 0x93f5_f579_9a93_2462);
    assert_eq!(hasher.hash(&message[..15]), 0xa129_ca61_49be_45e5);
}

#[test]
fn siphash_depends_on_the_key_and_on_every_byte() {
    let hasher = SipHasher24::new([1, 2]);
    assert_ne!(hasher.hash(b"lorica"), SipHasher24::new([1, 3]).hash(b"lorica"));
    assert_ne!(hasher.hash(b"lorica"), SipHasher24::new([0, 2]).hash(b"lorica"));
    let mut message = *b"sixteen bytes ok";
    let whole = hasher.hash(&message);
    for at in 0..message.len() {
        message[at] ^= 1;
        assert_ne!(hasher.hash(&message), whole);
        message[at] ^= 1;
    }
    // A zero at the end is another message.
    assert_ne!(hasher.hash(&[0; 7]), hasher.hash(&[0; 8]));
}

#[test]
fn the_words_of_a_key_are_its_two_halves_low_byte_first() {
    assert_eq!(key_words(counting_key()), [0x0706_0504_0302_0100, 0x0f0e_0d0c_0b0a_0908]);
    assert_eq!(
        SipHasher24::from_bytes(counting_key()).hash(b"x"),
        SipHasher24::new(key_words(counting_key())).hash(b"x")
    );
}

#[test]
fn fnv_gives_the_published_vectors() {
    assert_eq!(fast_hash(b""), 0xcbf2_9ce4_8422_2325);
    assert_eq!(fast_hash(b"a"), 0xaf63_dc4c_8601_ec8c);
    assert_eq!(fast_hash(b"foobar"), 0x8594_4171_f739_67e8);
}

/// The two halves of the address, each times an odd multiplier, added with wrapping.
#[test]
fn multiply_shift_is_two_products_and_a_sum() {
    let hasher = MultiplyShift::new([0x1234_5678_9abc_def0, 0x0fed_cba9_8765_4321]);
    let addr = counting_key();
    let expected = (0x1234_5678_9abc_def1u64)
        .wrapping_mul(0x0706_0504_0302_0100)
        .wrapping_add(0x0fed_cba9_8765_4321u64.wrapping_mul(0x0f0e_0d0c_0b0a_0908));
    assert_eq!(hasher.hash(&addr), expected);
    assert_eq!(hasher.hash(&[0; 16]), 0);
}

/// An odd multiplier loses nothing of a half.
#[test]
fn two_addresses_that_share_a_half_hash_apart() {
    let hasher = MultiplyShift::from_bytes(counting_key());
    let mut seen = std::collections::HashSet::new();
    for low in 0..=u16::MAX {
        let mut addr = [7u8; 16];
        addr[14] = (low >> 8) as u8;
        addr[15] = low as u8;
        assert!(seen.insert(hasher.hash(&addr)));
    }
}
