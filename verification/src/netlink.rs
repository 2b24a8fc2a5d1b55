//! The netlink wire format: message headers, and the attributes nested in a message.

use vstd::prelude::*;

use crate::bytes::{push_number, read_u16, ByteOrder};

verus! {

/// Bytes of a message header: the length, the kind, the flags, a sequence number and a port.
pub const NLMSG_HDR_LEN: usize = 16;

/// Bytes of an attribute header: the length and the kind.
pub const NLA_HDR_LEN: usize = 4;

/// The kind of an attribute without the flag bits in its high end.
pub const NLA_TYPE_MASK: u16 = 0x3fff;

/// The 16-bit number at an offset.
pub open spec fn word16(bytes: Seq<u8>, at: int, order: ByteOrder) -> int {
    crate::bytes::number(bytes.subrange(at, at + 2), order) as int
}

/// The 32-bit number at an offset.
pub open spec fn word32(bytes: Seq<u8>, at: int, order: ByteOrder) -> int {
    crate::bytes::number(bytes.subrange(at, at + 4), order) as int
}

/// How far the next item starts: the length rounded up to four, held at what is there.
pub open spec fn stride(length: int, available: int) -> int {
    let rounded = (length + 3) / 4 * 4;
    if rounded < available {
        rounded
    } else {
        available
    }
}

/// One attribute: its kind without the flag bits, and its payload.
pub struct Attribute {
    pub kind: u16,
    pub payload: Seq<u8>,
}

/// The attributes of a run of bytes. The walk stops at the first malformed header rather than
/// guessing past it.
pub open spec fn attributes(buffer: Seq<u8>, order: ByteOrder) -> Seq<Attribute>
    decreases buffer.len(),
{
    let length = word16(buffer, 0, order);
    if buffer.len() < NLA_HDR_LEN || length < NLA_HDR_LEN || length > buffer.len() {
        Seq::empty()
    } else {
        seq![
            Attribute {
                kind: (word16(buffer, 2, order) % 0x4000) as u16,
                payload: buffer.subrange(4, length),
            },
        ] + attributes(buffer.skip(stride(length, buffer.len() as int)), order)
    }
}

/// Where one attribute sits in its buffer.
pub struct AttributeAt {
    pub kind: u16,
    /// The payload, from here
    pub from: usize,
    /// to here.
    pub to: usize,
    /// Where the next attribute starts.
    pub next: usize,
}

/// How far the next item starts: the length rounded up to four, held at what is there.
pub(crate) fn item_stride(length: usize, available: usize) -> (next: usize)
    requires
        length <= available,
    ensures
        next == stride(length as int, available as int),
        length <= next <= available,
{
    let short: usize = length % 4;
    if short == 0 {
        length
    } else if available - length < 4 - short {
        available
    } else {
        length + (4 - short)
    }
}

/// The attribute that starts at `at`, in a run that ends at `end`.
pub fn next_attribute(buffer: &[u8], at: usize, end: usize, order: ByteOrder) -> (attribute: Option<
    AttributeAt,
>)
    requires
        at <= end <= buffer@.len(),
    ensures
        attribute is None ==> attributes(buffer@.subrange(at as int, end as int), order).len() == 0,
        attribute matches Some(a) ==> {
            &&& at < a.from <= a.to <= a.next <= end
            &&& attributes(buffer@.subrange(at as int, end as int), order) == seq![
                Attribute {
                    kind: a.kind,
                    payload: buffer@.subrange(a.from as int, a.to as int),
                },
            ] + attributes(buffer@.subrange(a.next as int, end as int), order)
        },
{
    let ghost run = buffer@.subrange(at as int, end as int);
    if end - at < NLA_HDR_LEN {
        return None;
    }
    assert(run.subrange(0, 2) =~= buffer@.subrange(at as int, at + 2));
    assert(run.subrange(2, 4) =~= buffer@.subrange(at + 2, at + 4));
    let length: usize = read_u16(buffer, at, order) as usize;
    let raw: u16 = read_u16(buffer, at + 2, order);
    assert(raw & 0x3fff == raw % 0x4000) by (bit_vector);
    let kind: u16 = raw & NLA_TYPE_MASK;
    if length < NLA_HDR_LEN || length > end - at {
        return None;
    }
    let next: usize = at + item_stride(length, end - at);
    proof {
        assert(run.subrange(4, length as int) =~= buffer@.subrange(at + 4, at + length));
        assert(run.skip(stride(length as int, run.len() as int)) =~= buffer@.subrange(
            next as int,
            end as int,
        ));
    }
    Some(AttributeAt { kind, from: at + NLA_HDR_LEN, to: at + length, next })
}

/// A message header of a request: the length of the whole message, its kind, its flags, a
/// sequence number of one, and a port of zero, which is the kernel's to fill in.
pub open spec fn is_request(bytes: Seq<u8>, kind: int, flags: int, order: ByteOrder) -> bool {
    &&& bytes.len() >= NLMSG_HDR_LEN
    &&& word32(bytes, 0, order) == bytes.len()
    &&& word16(bytes, 4, order) == kind
    &&& word16(bytes, 6, order) == flags
    &&& word32(bytes, 8, order) == 1
    &&& word32(bytes, 12, order) == 0
}

/// The header of a request whose whole message has `length` bytes.
pub fn request_header(length: usize, kind: u16, flags: u16, order: ByteOrder) -> (bytes: Vec<u8>)
    requires
        length <= u32::MAX,
    ensures
        bytes@.len() == NLMSG_HDR_LEN,
        word32(bytes@, 0, order) == length,
        word16(bytes@, 4, order) == kind,
        word16(bytes@, 6, order) == flags,
        word32(bytes@, 8, order) == 1,
        word32(bytes@, 12, order) == 0,
{
    let mut bytes: Vec<u8> = Vec::new();
    push_number(&mut bytes, length as u64, 4, order);
    let ghost one = bytes@;
    push_number(&mut bytes, kind as u64, 2, order);
    let ghost two = bytes@;
    push_number(&mut bytes, flags as u64, 2, order);
    let ghost three = bytes@;
    push_number(&mut bytes, 1, 4, order);
    let ghost four = bytes@;
    push_number(&mut bytes, 0, 4, order);
    proof {
        let all = bytes@;
        assert(one.skip(0) =~= one);
        assert(all.take(12) == four);
        assert(all.take(8) =~= four.take(8));
        assert(all.take(6) =~= three.take(6));
        assert(all.take(4) =~= two.take(4));
        assert(all.subrange(0, 4) =~= one);
        assert(all.subrange(4, 6) =~= two.skip(4));
        assert(all.subrange(6, 8) =~= three.skip(6));
        assert(all.subrange(8, 12) =~= four.skip(8));
        assert(all.subrange(12, 16) =~= all.skip(12));
    }
    bytes
}

/// A header stays a header when its body is put behind it.
pub proof fn lemma_request_prefix(
    head: Seq<u8>,
    whole: Seq<u8>,
    kind: int,
    flags: int,
    order: ByteOrder,
)
    requires
        head.len() == NLMSG_HDR_LEN,
        whole.len() >= NLMSG_HDR_LEN,
        whole.take(16) == head,
        word32(head, 0, order) == whole.len(),
        word16(head, 4, order) == kind,
        word16(head, 6, order) == flags,
        word32(head, 8, order) == 1,
        word32(head, 12, order) == 0,
    ensures
        is_request(whole, kind, flags, order),
{
    assert(whole.subrange(0, 4) =~= head.subrange(0, 4));
    assert(whole.subrange(4, 6) =~= head.subrange(4, 6));
    assert(whole.subrange(6, 8) =~= head.subrange(6, 8));
    assert(whole.subrange(8, 12) =~= head.subrange(8, 12));
    assert(whole.subrange(12, 16) =~= head.subrange(12, 16));
}

/// An attribute is read whole and the walk goes on behind it: an attribute that states its length,
/// padded to four bytes, in front of anything, is its kind without the two flag bits and the
/// bytes behind its header up to that length, followed by the attributes of what is behind it.
pub proof fn an_attribute_is_read_whole(item: Seq<u8>, rest: Seq<u8>, order: ByteOrder)
    requires
        item.len() % 4 == 0,
        4 <= word16(item, 0, order) <= item.len() < word16(item, 0, order) + 4,
    ensures
        ({
            let all = attributes(item + rest, order);
            &&& all.len() == attributes(rest, order).len() + 1
            &&& all[0].kind == word16(item, 2, order) % 0x4000
            &&& all[0].payload == item.subrange(4, word16(item, 0, order))
            &&& all.skip(1) == attributes(rest, order)
        }),
{
    let buffer = item + rest;
    let length = word16(item, 0, order);
    assert(buffer.subrange(0, 2) =~= item.subrange(0, 2));
    assert(buffer.subrange(2, 4) =~= item.subrange(2, 4));
    assert(buffer.subrange(4, length) =~= item.subrange(4, length));
    assert(stride(length, buffer.len() as int) == item.len());
    assert(buffer.skip(item.len() as int) =~= rest);
    assert(attributes(buffer, order).skip(1) =~= attributes(rest, order));
}

/// The last attribute may lack its padding.
pub proof fn the_last_attribute_needs_no_padding(item: Seq<u8>, order: ByteOrder)
    requires
        4 <= item.len(),
        word16(item, 0, order) == item.len(),
    ensures
        ({
            let all = attributes(item, order);
            &&& all.len() == 1
            &&& all[0].kind == word16(item, 2, order) % 0x4000
            &&& all[0].payload == item.skip(4)
        }),
{
    let length = item.len() as int;
    assert(item.subrange(4, length) =~= item.skip(4));
    assert(item.skip(stride(length, length)).len() == 0);
    assert(attributes(item.skip(stride(length, length)), order).len() == 0);
}

/// The walk ends at a header that is short, or that states a length shorter than itself or past
/// the end.
pub proof fn the_walk_ends_at_a_malformed_attribute(buffer: Seq<u8>, order: ByteOrder)
    requires
        buffer.len() < 4 || word16(buffer, 0, order) < 4 || word16(buffer, 0, order) > buffer.len(),
    ensures
        attributes(buffer, order).len() == 0,
{
}

} // verus!
