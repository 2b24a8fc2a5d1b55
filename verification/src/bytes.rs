//! Numbers as bytes, in the two orders machines write them.

use vstd::prelude::*;

verus! {

/// The number a run of bytes spells, least significant byte first.
pub open spec fn little_endian(bytes: Seq<u8>) -> nat
    decreases bytes.len(),
{
    if bytes.len() == 0 {
        0
    } else {
        bytes[0] as nat + 256 * little_endian(bytes.drop_first())
    }
}

/// The number a run of bytes spells, most significant byte first.
pub open spec fn big_endian(bytes: Seq<u8>) -> nat
    decreases bytes.len(),
{
    if bytes.len() == 0 {
        0
    } else {
        256 * big_endian(bytes.drop_last()) + bytes.last() as nat
    }
}

/// A run of at most eight bytes spells a 64-bit number.
pub proof fn lemma_little_endian_fits(bytes: Seq<u8>)
    ensures
        bytes.len() <= 8 ==> little_endian(bytes) <= u64::MAX,
        bytes.len() <= 7 ==> little_endian(bytes) < 0x100_0000_0000_0000,
        bytes.len() <= 4 ==> little_endian(bytes) <= u32::MAX,
        bytes.len() <= 2 ==> little_endian(bytes) <= u16::MAX,
{
    reveal_with_fuel(little_endian, 9);
}

/// Reads up to eight bytes as a number, least significant first.
pub fn read_little_endian(bytes: &[u8], from: usize, len: usize) -> (word: u64)
    requires
        len <= 8,
        from + len <= bytes@.len(),
    ensures
        word == little_endian(bytes@.subrange(from as int, from + len)),
{
    let mut word: u64 = 0;
    let mut left: usize = len;
    let end: usize = bytes.len();
    assert(bytes@.subrange(from + len, from + len).len() == 0);
    while left > 0
        invariant
            left <= len <= 8,
            end == bytes@.len(),
            from + len <= bytes@.len(),
            word == little_endian(bytes@.subrange(from + left, from + len)),
        decreases left,
    {
        proof {
            let tail = bytes@.subrange(from + left, from + len);
            let longer = bytes@.subrange(from + left - 1, from + len);
            assert(longer.drop_first() =~= tail);
            assert(longer[0] == bytes@[from + left - 1]);
            lemma_little_endian_fits(tail);
        }
        left -= 1;
        word = word * 256 + bytes[from + left] as u64;
    }
    word
}

/// Two runs of one length that spell the same number are the same run.
pub proof fn lemma_little_endian_injective(a: Seq<u8>, b: Seq<u8>)
    requires
        a.len() == b.len(),
        little_endian(a) == little_endian(b),
    ensures
        a == b,
    decreases a.len(),
{
    if a.len() > 0 {
        lemma_little_endian_injective(a.drop_first(), b.drop_first());
        assert(a =~= seq![a[0]] + a.drop_first());
        assert(b =~= seq![b[0]] + b.drop_first());
    }
    assert(a =~= b);
}

/// Which end of a number comes first in memory.
#[derive(Clone, Copy, PartialEq, Eq, Debug, Structural)]
pub enum ByteOrder {
    /// The least significant byte first.
    Little,
    /// The most significant byte first.
    Big,
}

/// The number a run of bytes spells in a byte order.
pub open spec fn number(bytes: Seq<u8>, order: ByteOrder) -> nat {
    match order {
        ByteOrder::Little => little_endian(bytes),
        ByteOrder::Big => big_endian(bytes),
    }
}

/// The bytes of `1`, as this machine writes them: `u16::to_ne_bytes`. It puts the one byte that
/// is not zero at one end or at the other, and every machine always at the same end, which is
/// left unsaid.
#[verifier::external_body]
fn one_in_memory() -> (bytes: [u8; 2])
    ensures
        bytes@ == seq![1u8, 0u8] || bytes@ == seq![0u8, 1u8],
{
    1u16.to_ne_bytes()
}

/// The order that makes the given bytes spell one.
pub open spec fn order_of_one(bytes: Seq<u8>) -> ByteOrder {
    if bytes[0] == 1 {
        ByteOrder::Little
    } else {
        ByteOrder::Big
    }
}

impl ByteOrder {
    /// The order of a machine that writes `1` as the given bytes.
    pub fn from_one(bytes: [u8; 2]) -> (order: Self)
        ensures
            order == order_of_one(bytes@),
    {
        if bytes[0] == 1 {
            ByteOrder::Little
        } else {
            ByteOrder::Big
        }
    }

    /// The order of this machine: the one in which its bytes of `1` spell one.
    pub fn host() -> (order: Self)
        ensures
            exists|bytes: Seq<u8>|
                bytes.len() == 2 && #[trigger] number(bytes, order) == 1 && order == order_of_one(
                    bytes,
                ),
    {
        let bytes: [u8; 2] = one_in_memory();
        let order: ByteOrder = ByteOrder::from_one(bytes);
        proof {
            reveal_with_fuel(little_endian, 3);
            reveal_with_fuel(big_endian, 3);
            assert(number(bytes@, order) == 1);
        }
        order
    }
}

/// A run of at most eight bytes spells a 64-bit number, most significant byte first.
pub proof fn lemma_big_endian_fits(bytes: Seq<u8>)
    ensures
        bytes.len() <= 8 ==> big_endian(bytes) <= u64::MAX,
        bytes.len() <= 7 ==> big_endian(bytes) < 0x100_0000_0000_0000,
        bytes.len() <= 4 ==> big_endian(bytes) <= u32::MAX,
        bytes.len() <= 2 ==> big_endian(bytes) <= u16::MAX,
{
    reveal_with_fuel(big_endian, 9);
}

/// A number is zero only where all its bytes are.
pub proof fn lemma_zero_number(bytes: Seq<u8>, order: ByteOrder)
    requires
        number(bytes, order) == 0,
    ensures
        forall|i: int| 0 <= i < bytes.len() ==> #[trigger] bytes[i] == 0,
    decreases bytes.len(),
{
    if bytes.len() > 0 {
        match order {
            ByteOrder::Little => {
                let rest = bytes.drop_first();
                lemma_zero_number(rest, order);
                assert forall|i: int| 0 <= i < bytes.len() implies #[trigger] bytes[i] == 0 by {
                    assert(i > 0 ==> bytes[i] == rest[i - 1]);
                }
            },
            ByteOrder::Big => {
                let rest = bytes.drop_last();
                lemma_zero_number(rest, order);
                assert forall|i: int| 0 <= i < bytes.len() implies #[trigger] bytes[i] == 0 by {
                    assert(i < rest.len() ==> bytes[i] == rest[i]);
                }
            },
        }
    }
}

/// Reads up to eight bytes as a number, most significant first.
pub fn read_big_endian(bytes: &[u8], from: usize, len: usize) -> (word: u64)
    requires
        len <= 8,
        from + len <= bytes@.len(),
    ensures
        word == big_endian(bytes@.subrange(from as int, from + len)),
{
    let mut word: u64 = 0;
    let mut read: usize = 0;
    let end: usize = bytes.len();
    assert(bytes@.subrange(from as int, from as int).len() == 0);
    while read < len
        invariant
            read <= len <= 8,
            end == bytes@.len(),
            from + len <= bytes@.len(),
            word == big_endian(bytes@.subrange(from as int, from + read)),
        decreases len - read,
    {
        proof {
            let head = bytes@.subrange(from as int, from + read);
            let longer = bytes@.subrange(from as int, from + read + 1);
            assert(longer.drop_last() =~= head);
            assert(longer.last() == bytes@[from + read]);
            lemma_big_endian_fits(head);
        }
        word = word * 256 + bytes[from + read] as u64;
        read += 1;
    }
    word
}

/// Reads up to eight bytes as a number.
pub fn read_number(bytes: &[u8], from: usize, len: usize, order: ByteOrder) -> (word: u64)
    requires
        len <= 8,
        from + len <= bytes@.len(),
    ensures
        word == number(bytes@.subrange(from as int, from + len), order),
{
    match order {
        ByteOrder::Little => read_little_endian(bytes, from, len),
        ByteOrder::Big => read_big_endian(bytes, from, len),
    }
}

/// The 16-bit number at an offset.
pub fn read_u16(bytes: &[u8], from: usize, order: ByteOrder) -> (word: u16)
    requires
        from + 2 <= bytes@.len(),
    ensures
        word == number(bytes@.subrange(from as int, from + 2), order),
{
    proof {
        lemma_little_endian_fits(bytes@.subrange(from as int, from + 2));
        lemma_big_endian_fits(bytes@.subrange(from as int, from + 2));
    }
    read_number(bytes, from, 2, order) as u16
}

/// The 32-bit number at an offset.
pub fn read_u32(bytes: &[u8], from: usize, order: ByteOrder) -> (word: u32)
    requires
        from + 4 <= bytes@.len(),
    ensures
        word == number(bytes@.subrange(from as int, from + 4), order),
{
    proof {
        lemma_little_endian_fits(bytes@.subrange(from as int, from + 4));
        lemma_big_endian_fits(bytes@.subrange(from as int, from + 4));
    }
    read_number(bytes, from, 4, order) as u32
}

/// Two runs of one length that spell the same number are the same run, in either order.
pub proof fn lemma_number_injective(a: Seq<u8>, b: Seq<u8>, order: ByteOrder)
    requires
        a.len() == b.len(),
        number(a, order) == number(b, order),
    ensures
        a == b,
    decreases a.len(),
{
    if order == ByteOrder::Little {
        lemma_little_endian_injective(a, b);
    } else if a.len() > 0 {
        lemma_number_injective(a.drop_last(), b.drop_last(), order);
        assert(a =~= a.drop_last().push(a.last()));
        assert(b =~= b.drop_last().push(b.last()));
    }
    assert(a =~= b);
}

/// How many numbers `len` bytes can spell.
pub open spec fn bytes_range(len: nat) -> nat
    decreases len,
{
    if len == 0 {
        1
    } else {
        256 * bytes_range((len - 1) as nat)
    }
}

/// Appends a number to a buffer, in `len` bytes.
pub fn push_number(buffer: &mut Vec<u8>, word: u64, len: usize, order: ByteOrder)
    requires
        len == 2 && word <= u16::MAX || len == 4 && word <= u32::MAX || len == 8,
    ensures
        final(buffer)@.len() == old(buffer)@.len() + len,
        final(buffer)@.take(old(buffer)@.len() as int) == old(buffer)@,
        number(final(buffer)@.skip(old(buffer)@.len() as int), order) == word,
{
    proof {
        reveal_with_fuel(bytes_range, 9);
    }
    match order {
        ByteOrder::Little => push_little_endian(buffer, word, len),
        ByteOrder::Big => push_big_endian(buffer, word, len),
    }
}

fn push_little_endian(buffer: &mut Vec<u8>, word: u64, len: usize)
    requires
        word < bytes_range(len as nat),
    ensures
        final(buffer)@.len() == old(buffer)@.len() + len,
        final(buffer)@.take(old(buffer)@.len() as int) == old(buffer)@,
        little_endian(final(buffer)@.skip(old(buffer)@.len() as int)) == word,
    decreases len,
{
    let ghost before = buffer@;
    if len > 0 {
        buffer.push((word % 256) as u8);
        let ghost pushed = buffer@;
        push_little_endian(buffer, word / 256, len - 1);
        proof {
            let tail = buffer@.skip(before.len() as int);
            assert(tail.drop_first() =~= buffer@.skip(pushed.len() as int));
            assert(tail[0] == buffer@.take(pushed.len() as int)[before.len() as int]);
            assert(buffer@.take(before.len() as int) =~= buffer@.take(pushed.len() as int).take(
                before.len() as int,
            ));
            assert(pushed.take(before.len() as int) =~= before);
        }
    } else {
        assert(buffer@.take(before.len() as int) =~= before);
    }
}

fn push_big_endian(buffer: &mut Vec<u8>, word: u64, len: usize)
    requires
        word < bytes_range(len as nat),
    ensures
        final(buffer)@.len() == old(buffer)@.len() + len,
        final(buffer)@.take(old(buffer)@.len() as int) == old(buffer)@,
        big_endian(final(buffer)@.skip(old(buffer)@.len() as int)) == word,
    decreases len,
{
    let ghost before = buffer@;
    if len > 0 {
        push_big_endian(buffer, word / 256, len - 1);
        let ghost head = buffer@;
        buffer.push((word % 256) as u8);
        proof {
            let tail = buffer@.skip(before.len() as int);
            assert(tail.drop_last() =~= head.skip(before.len() as int));
            assert(tail.last() == (word % 256) as u8);
            assert(buffer@.take(before.len() as int) =~= head.take(before.len() as int));
        }
    } else {
        assert(buffer@.take(before.len() as int) =~= before);
    }
}

/// Writes a 32-bit number at an offset of a buffer.
pub fn write_u32(buffer: &mut Vec<u8>, at: usize, word: u32, order: ByteOrder)
    requires
        at + 4 <= old(buffer)@.len(),
    ensures
        final(buffer)@.len() == old(buffer)@.len(),
        number(final(buffer)@.subrange(at as int, at + 4), order) == word,
        forall|i: int|
            0 <= i < old(buffer)@.len() && !(at <= i < at + 4) ==> #[trigger] final(buffer)@[i]
                == old(buffer)@[i],
{
    let len: usize = buffer.len();
    assert(at + 4 <= len);
    let low: u8 = (word % 256) as u8;
    let second: u8 = (word / 0x100 % 256) as u8;
    let third: u8 = (word / 0x1_0000 % 256) as u8;
    let high: u8 = (word / 0x100_0000) as u8;
    match order {
        ByteOrder::Little => {
            buffer[at] = low;
            buffer[at + 1] = second;
            buffer[at + 2] = third;
            buffer[at + 3] = high;
        },
        ByteOrder::Big => {
            buffer[at] = high;
            buffer[at + 1] = third;
            buffer[at + 2] = second;
            buffer[at + 3] = low;
        },
    }
    proof {
        reveal_with_fuel(little_endian, 5);
        reveal_with_fuel(big_endian, 5);
        let run = buffer@.subrange(at as int, at + 4);
        assert(run.len() == 4);
    }
}

/// The digits of a number. Each byte of a word weighs 256 times the one before it, least
/// significant first.
pub proof fn a_little_endian_word_has_its_low_byte_first(bytes: Seq<u8>)
    ensures
        bytes.len() == 2 ==> number(bytes, ByteOrder::Little) == bytes[0] + 0x100 * bytes[1],
        bytes.len() == 4 ==> number(bytes, ByteOrder::Little) == bytes[0] + 0x100 * bytes[1]
            + 0x1_0000 * bytes[2] + 0x100_0000 * bytes[3],
        bytes.len() == 8 ==> number(bytes, ByteOrder::Little) == number(
            bytes.subrange(0, 4),
            ByteOrder::Little,
        ) + 0x1_0000_0000 * number(bytes.subrange(4, 8), ByteOrder::Little),
{
    reveal_with_fuel(little_endian, 9);
}

/// A run of bytes spells in one order what its reverse spells in the other.
pub proof fn the_two_orders_mirror_each_other(bytes: Seq<u8>)
    ensures
        number(bytes, ByteOrder::Big) == number(bytes.reverse(), ByteOrder::Little),
    decreases bytes.len(),
{
    if bytes.len() > 0 {
        the_two_orders_mirror_each_other(bytes.drop_last());
        assert(bytes.reverse().drop_first() =~= bytes.drop_last().reverse());
        assert(bytes.reverse()[0] == bytes.last());
    }
}

} // verus!
