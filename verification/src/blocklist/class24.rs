//! One two-bit code per `/24` block of the IPv4 address space.

use vstd::prelude::*;

verus! {

/// Prefix length `CLASS24` indexes. Every IPv4 prefix at least this short is resolved by the
/// table alone.
pub const CLASS24_PREFIX_BITS: u32 = 24;

/// Number of `/24` blocks, one entry each.
pub const CLASS24_ENTRIES: usize = 0x100_0000;

/// Entries packed per byte, at two bits each.
pub const CLASS24_PER_BYTE: usize = 4;

/// Size of the table. 4 MiB.
pub const CLASS24_BYTES: usize = 0x40_0000;

/// Symbol of the `.bss` global carrying [`CLASS24_BYTES`] bytes.
pub const CLASS24_SYMBOL: &'static str = "CLASS24";

/// What a `/24` carries.
#[derive(Clone, Copy, PartialEq, Eq, Debug, Structural)]
pub enum Class24 {
    /// No configured prefix covers this `/24`.
    Nothing,
    /// A prefix `<= /24` denies it, and nothing longer contradicts that.
    Deny,
    /// A prefix `<= /24` allows it, and nothing longer contradicts that.
    Allow,
    /// At least one `/25` to `/32` inside this `/24` carries a verdict. Consult the table.
    Table,
}

impl Class24 {
    /// The two-bit code.
    pub open spec fn code(self) -> u8 {
        match self {
            Class24::Nothing => 0,
            Class24::Deny => 1,
            Class24::Allow => 2,
            Class24::Table => 3,
        }
    }

    /// Parses a two-bit code out of the low bits of a byte. Total, because every two-bit
    /// pattern is a code.
    pub fn from_bits(bits: u8) -> (class: Self)
        ensures
            class.code() == bits % 4,
    {
        assert(bits & 0b11 == bits % 4) by (bit_vector);
        match bits & 0b11 {
            0 => Self::Nothing,
            1 => Self::Deny,
            2 => Self::Allow,
            _ => Self::Table,
        }
    }
}

/// The two bits of a byte that hold its entry `slot`, entry zero in the low bits.
pub open spec fn quarter(byte: u8, slot: int) -> u8 {
    if slot == 0 {
        byte % 4
    } else if slot == 1 {
        byte / 4 % 4
    } else if slot == 2 {
        byte / 16 % 4
    } else {
        byte / 64
    }
}

/// The two-bit code a table holds for a `/24` block.
pub open spec fn class24_code(table: Seq<u8>, block: int) -> u8 {
    quarter(table[block / 4], block % 4)
}

/// The `/24` block an address falls in.
pub open spec fn class24_block(addr: u32) -> int {
    addr as int / 256
}

/// Index of the `/24` an address falls in.
pub fn class24_index(addr: u32) -> (index: usize)
    ensures
        index == class24_block(addr),
        index < CLASS24_ENTRIES,
{
    assert(addr >> 8u32 == addr / 256 && addr / 256 < 0x100_0000) by (bit_vector);
    (addr >> (32 - CLASS24_PREFIX_BITS)) as usize
}

/// Bit offset of an entry inside its byte.
pub fn class24_shift(index: usize) -> (shift: u32)
    ensures
        shift == 2 * (index as int % 4),
{
    2 * (index % CLASS24_PER_BYTE) as u32
}

/// Reads the code for an address out of a [`CLASS24_BYTES`]-byte table.
///
/// Entry `i` occupies bits `2 * (i % 4)` and `2 * (i % 4) + 1` of byte `i / 4`.
pub fn class24_get(table: &[u8], addr: u32) -> (class: Class24)
    requires
        class24_block(addr) / 4 < table@.len(),
    ensures
        class.code() == class24_code(table@, class24_block(addr)),
{
    let index: usize = class24_index(addr);
    let byte: u8 = table[index / CLASS24_PER_BYTE];
    let shift: u32 = class24_shift(index);
    assert((byte >> 0u32) % 4 == byte % 4 && (byte >> 2u32) % 4 == byte / 4 % 4 && (byte >> 4u32)
        % 4 == byte / 16 % 4 && (byte >> 6u32) % 4 == byte / 64) by (bit_vector);
    Class24::from_bits(byte >> shift)
}

/// Writes the code for an address into a [`CLASS24_BYTES`]-byte table. The other three blocks
/// of the byte, and every other byte, keep their codes.
pub fn class24_set(table: &mut [u8], addr: u32, class: Class24)
    requires
        class24_block(addr) / 4 < old(table)@.len(),
    ensures
        final(table)@.len() == old(table)@.len(),
        forall|block: int|
            0 <= block < 4 * old(table)@.len() ==> #[trigger] class24_code(final(table)@, block)
                == (if block == class24_block(addr) {
                class.code()
            } else {
                class24_code(old(table)@, block)
            }),
{
    let index: usize = class24_index(addr);
    let shift: u32 = class24_shift(index);
    let at: usize = index / CLASS24_PER_BYTE;
    let byte: u8 = table[at];
    let code: u8 = class as u8;
    let mask: u8 = 0b11;
    let written: u8 = (byte & !(mask << shift)) | (code << shift);
    proof {
        lemma_write_quarter(byte, code, shift, written);
    }
    table[at] = written;
    proof {
        assert forall|block: int| 0 <= block < 4 * old(table)@.len() implies #[trigger] class24_code(
            table@,
            block,
        ) == (if block == class24_block(addr) {
            class.code()
        } else {
            class24_code(old(table)@, block)
        }) by {
            if block / 4 == at {
                assert(block == 4 * at + block % 4);
                assert(index == 4 * at + index as int % 4);
            }
        }
    }
}

proof fn lemma_write_quarter(byte: u8, code: u8, shift: u32, written: u8)
    requires
        code < 4,
        shift == 0 || shift == 2 || shift == 4 || shift == 6,
        written == (byte & !(0b11u8 << shift)) | (code << shift),
    ensures
        forall|slot: int|
            0 <= slot < 4 ==> #[trigger] quarter(written, slot) == (if 2 * slot == shift {
                code
            } else {
                quarter(byte, slot)
            }),
{
    assert(written % 4 == (if shift == 0 { code } else { byte % 4 })
        && written / 4 % 4 == (if shift == 2 { code } else { byte / 4 % 4 })
        && written / 16 % 4 == (if shift == 4 { code } else { byte / 16 % 4 })
        && written / 64 == (if shift == 6 { code } else { byte / 64 })) by (bit_vector)
        requires
            code < 4,
            shift == 0 || shift == 2 || shift == 4 || shift == 6,
            written == (byte & !(0b11u8 << shift)) | (code << shift),
    ;
}

/// A byte of a table is the codes of its four blocks, two bits each, the first in the low bits.
pub proof fn a_byte_is_its_four_codes(table: Seq<u8>, at: int)
    requires
        0 <= at < table.len(),
    ensures
        table[at] == class24_code(table, 4 * at) + 4 * class24_code(table, 4 * at + 1) + 16
            * class24_code(table, 4 * at + 2) + 64 * class24_code(table, 4 * at + 3),
        class24_code(table, 4 * at) < 4,
        class24_code(table, 4 * at + 1) < 4,
        class24_code(table, 4 * at + 2) < 4,
        class24_code(table, 4 * at + 3) < 4,
{
}

/// Two addresses are in one block where they agree in their first twenty-four bits, and the
/// blocks are numbered in the order of their addresses.
pub proof fn a_block_is_the_first_three_octets(a: u8, b: u8, c: u8, d: u8)
    ensures
        class24_block(((a as u32) * 0x100_0000 + b * 0x1_0000 + c * 0x100 + d) as u32) == a * 0x1_0000
            + b * 0x100 + c,
{
}

/// Every two bits are the code of one class, and no two classes share theirs: nothing is zero, so
/// that a table of zeros holds nothing, deny is one, allow is two, and three asks the table.
pub proof fn the_codes_are_the_two_bits(class: Class24)
    ensures
        class.code() == 0 <==> class == Class24::Nothing,
        class.code() == 1 <==> class == Class24::Deny,
        class.code() == 2 <==> class == Class24::Allow,
        class.code() == 3 <==> class == Class24::Table,
{
}

} // verus!
