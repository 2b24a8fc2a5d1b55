//! The key of the unified list.

use vstd::prelude::*;

use crate::bytes::{push_number, ByteOrder};

verus! {

/// Bits in front of an IPv4 address in its mapped form.
pub const V4_MAPPED_PREFIX_BITS: u32 = 96;

/// A prefix of the unified list: the number of leading bits that count, and an IPv6 address, in
/// which an IPv4 one is written in its mapped form.
#[derive(Clone, Copy, PartialEq, Eq, Debug)]
pub struct LpmKey {
    pub prefix_len: u32,
    pub addr: [u8; 16],
}

/// The mapped form of an IPv4 address: ten zeros, two bytes of ones, and the address.
pub open spec fn mapped(addr: Seq<u8>) -> Seq<u8> {
    seq![0u8, 0, 0, 0, 0, 0, 0, 0, 0, 0, 0xff, 0xff] + addr
}

/// How many bits of a mapped address count for an IPv4 prefix of `len` bits.
pub open spec fn v4_bits(len: u8) -> int {
    V4_MAPPED_PREFIX_BITS + len
}

/// Bit `i` of a run of bytes, the highest of the first byte first.
pub open spec fn bit(bytes: Seq<u8>, i: int) -> bool {
    (bytes[i / 8] >> ((7 - i % 8) as u8)) & 1 == 1
}

/// Whether two runs of bytes agree in their first `bits` bits.
pub open spec fn agree(a: Seq<u8>, b: Seq<u8>, bits: int) -> bool {
    forall|i: int| 0 <= i < bits ==> #[trigger] bit(a, i) == bit(b, i)
}

/// An IPv4 prefix covers in its mapped form what it covers as it is: two addresses agree in the
/// bits that count of the one where they agree in the bits that count of the other.
pub proof fn a_mapped_prefix_covers_what_the_prefix_does(a: Seq<u8>, b: Seq<u8>, len: u8)
    requires
        a.len() == 4,
        b.len() == 4,
        len <= 32,
    ensures
        agree(mapped(a), mapped(b), v4_bits(len)) <==> agree(a, b, len as int),
        v4_bits(32) == 128,
{
    assert forall|i: int| 0 <= i < 96 implies #[trigger] bit(mapped(a), i) == bit(mapped(b), i) by {
        assert(mapped(a)[i / 8] == mapped(b)[i / 8]);
    }
    assert forall|i: int| 0 <= i < 32 implies #[trigger] bit(a, i) == bit(mapped(a), 96 + i) by {
        assert(mapped(a)[12 + i / 8] == a[i / 8]);
        assert((96 + i) / 8 == 12 + i / 8 && (96 + i) % 8 == i % 8);
    }
    assert forall|i: int| 0 <= i < 32 implies #[trigger] bit(b, i) == bit(mapped(b), 96 + i) by {
        assert(mapped(b)[12 + i / 8] == b[i / 8]);
        assert((96 + i) / 8 == 12 + i / 8 && (96 + i) % 8 == i % 8);
    }
    if agree(a, b, len as int) {
        assert forall|i: int| 0 <= i < v4_bits(len) implies #[trigger] bit(mapped(a), i) == bit(
            mapped(b),
            i,
        ) by {
            if i >= 96 {
                assert(bit(a, i - 96) == bit(b, i - 96));
            }
        }
    }
    if agree(mapped(a), mapped(b), v4_bits(len)) {
        assert forall|i: int| 0 <= i < len implies #[trigger] bit(a, i) == bit(b, i) by {
            assert(bit(mapped(a), 96 + i) == bit(mapped(b), 96 + i));
        }
    }
}

impl LpmKey {
    /// The key of an IPv4 prefix.
    pub fn v4(addr: [u8; 4], len: u8) -> (key: Self)
        ensures
            key.prefix_len == v4_bits(len),
            key.prefix_len == V4_MAPPED_PREFIX_BITS + len,
            key.addr@ == mapped(addr@),
    {
        let mapped: [u8; 16] = [
            0,
            0,
            0,
            0,
            0,
            0,
            0,
            0,
            0,
            0,
            0xff,
            0xff,
            addr[0],
            addr[1],
            addr[2],
            addr[3],
        ];
        assert(mapped@ =~= self::mapped(addr@));
        LpmKey { prefix_len: V4_MAPPED_PREFIX_BITS + len as u32, addr: mapped }
    }

    /// The key of one IPv4 address.
    pub fn host_v4(addr: [u8; 4]) -> (key: Self)
        ensures
            key.prefix_len == 128,
            key.addr@ == mapped(addr@),
    {
        Self::v4(addr, 32)
    }

    /// The twenty bytes the kernel reads: the prefix length as the leading word, then the
    /// address.
    pub fn to_bytes(&self, order: ByteOrder) -> (bytes: Vec<u8>)
        ensures
            bytes@.len() == 20,
            crate::bytes::number(bytes@.subrange(0, 4), order) == self.prefix_len,
            bytes@.subrange(4, 20) == self.addr@,
    {
        let mut bytes: Vec<u8> = Vec::new();
        push_number(&mut bytes, self.prefix_len as u64, 4, order);
        let ghost head = bytes@;
        assert(head.skip(0) =~= head);
        let mut i: usize = 0;
        while i < 16
            invariant
                i <= 16,
                head.len() == 4,
                bytes@ == head + self.addr@.take(i as int),
            decreases 16 - i,
        {
            bytes.push(self.addr[i]);
            assert(self.addr@.take(i + 1) =~= self.addr@.take(i as int).push(self.addr@[i as int]));
            i += 1;
        }
        assert(bytes@.subrange(0, 4) =~= head);
        assert(bytes@.subrange(4, 20) =~= self.addr@);
        bytes
    }
}

/// An IPv4 address in its mapped form keeps its four bytes at the end, behind ten zeros and two
/// bytes of ones, so that two of them agree in the first `96 + len` bits where the addresses agree
/// in the first `len`.
pub proof fn a_mapped_address_ends_in_the_address(addr: Seq<u8>)
    requires
        addr.len() == 4,
    ensures
        mapped(addr).len() == 16,
        forall|i: int| 0 <= i < 10 ==> #[trigger] mapped(addr)[i] == 0,
        mapped(addr)[10] == 0xff,
        mapped(addr)[11] == 0xff,
        forall|i: int| 0 <= i < 4 ==> mapped(addr)[12 + i] == #[trigger] addr[i],
        V4_MAPPED_PREFIX_BITS == 8 * 12,
{
}

} // verus!
