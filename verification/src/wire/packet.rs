//! A parsed packet, as every stage sees it.

use vstd::prelude::*;

use crate::bytes::{push_number, ByteOrder};

verus! {

/// Address family of a parsed packet.
#[derive(Clone, Copy, PartialEq, Eq, Debug, Structural)]
pub enum Family {
    V4,
    V6,
}

/// Where a packet sits in a fragment train.
///
/// `Later` has no L4 header at all, so it carries no port and can never match a scope.
#[derive(Clone, Copy, PartialEq, Eq, Debug, Structural)]
pub enum FragState {
    Whole,
    First,
    Later,
}

/// Largest header offset the parser will look at: a 9216-byte jumbo frame.
pub const MAX_OFFSET: usize = 9216;

/// Everything a stage decides on, built once per packet.
///
/// Every byte pattern is a valid value, which is what makes it safe to read back out of a kernel
/// map: the family and the fragment state are stored raw and decoded by total functions.
#[derive(Clone, Copy, PartialEq, Eq, Debug)]
pub struct PacketView {
    pub src: [u8; 16],
    pub l3_off: u16,
    pub l4_off: u16,
    /// The first byte after the L4 header, or the L4 offset when the packet carries no L4
    /// header.
    pub payload_off: u16,
    pub sport: u16,
    pub dport: u16,
    /// Length the IP header claims, fixed header included on both families.
    pub ip_total_len: u16,
    /// Length the L4 header claims, when it carries one. Zero otherwise.
    pub l4_len: u16,
    pub packet_len: u16,
    pub family_raw: u8,
    pub proto: u8,
    pub frag_raw: u8,
    pub tcp_flags: u8,
    pub icmp_type: u8,
    pub icmp_code: u8,
    pub anomalies: u8,
    pub vlan_tags: u8,
}

/// The bytes of `packet` at `at` from the start of the payload, where the offset is one the
/// parser looks at and the packet holds them.
pub open spec fn payload_run(packet: Seq<u8>, payload_off: u16, at: u16, len: int) -> Option<
    Seq<u8>,
> {
    let off = payload_off + at;
    if off > MAX_OFFSET || off + len > packet.len() {
        None
    } else {
        Some(packet.subrange(off, off + len))
    }
}

/// The family a raw byte stands for.
pub open spec fn family_of(raw: u8) -> Family {
    if raw == 0 {
        Family::V4
    } else {
        Family::V6
    }
}

/// The fragment state a raw byte stands for.
pub open spec fn frag_of(raw: u8) -> FragState {
    match raw {
        0 => FragState::Whole,
        1 => FragState::First,
        _ => FragState::Later,
    }
}

/// Every byte is a family and a fragment state: zero is IPv4 and all others IPv6; zero is a whole
/// packet, one the first of a train, and all others a later one, which has no port.
pub proof fn every_byte_is_a_family_and_a_fragment_state(raw: u8)
    ensures
        family_of(raw) == Family::V4 <==> raw == 0,
        family_of(raw) == Family::V6 <==> raw >= 1,
        frag_of(raw) == FragState::Whole <==> raw == 0,
        frag_of(raw) == FragState::First <==> raw == 1,
        frag_of(raw) == FragState::Later <==> raw >= 2,
{
}

impl PacketView {
    /// A fixed-size run of payload bytes at `at` from the start of the payload: the one place a
    /// stage reaches back into the packet. A run is two bytes or more.
    pub fn payload_bytes<const N: usize>(&self, packet: &[u8], at: u16) -> (run: Option<[u8; N]>)
        requires
            N >= 2,
        ensures
            run is Some <==> payload_run(packet@, self.payload_off, at, N as int) is Some,
            run matches Some(bytes) ==> payload_run(packet@, self.payload_off, at, N as int) == Some(
                bytes@,
            ),
    {
        let off: usize = self.payload_off as usize + at as usize;
        if off > MAX_OFFSET {
            return None;
        }
        if off > packet.len() || packet.len() - off < N {
            return None;
        }
        let mut bytes: [u8; N] = [0; N];
        let mut i: usize = 0;
        while i < N
            invariant
                i <= N,
                off + N <= packet@.len(),
                packet@.len() <= usize::MAX,
                forall|j: int| 0 <= j < i ==> bytes@[j] == packet@[off + j],
            decreases N - i,
        {
            bytes[i] = packet[off + i];
            i += 1;
        }
        assert(bytes@ =~= packet@.subrange(off as int, off + N));
        Some(bytes)
    }

    /// The address family: a raw byte of zero is IPv4, and every other one IPv6.
    pub fn family(&self) -> (family: Family)
        ensures
            family == family_of(self.family_raw),
            family == (if self.family_raw == 0 {
                Family::V4
            } else {
                Family::V6
            }),
    {
        if self.family_raw == 0 {
            Family::V4
        } else {
            Family::V6
        }
    }

    /// The fragment state: zero is whole, one is first, and every other byte later.
    pub fn frag(&self) -> (state: FragState)
        ensures
            state == frag_of(self.frag_raw),
            state == (match self.frag_raw {
                0 => FragState::Whole,
                1 => FragState::First,
                _ => FragState::Later,
            }),
    {
        match self.frag_raw {
            0 => FragState::Whole,
            1 => FragState::First,
            _ => FragState::Later,
        }
    }

    /// Whether any of the given anomalies was seen.
    pub fn has(&self, anomaly: u8) -> (seen: bool)
        ensures
            seen == (self.anomalies & anomaly != 0),
    {
        self.anomalies & anomaly != 0
    }
}

/// Reads back out of forty bytes what the view holds: the address, eight 16-bit words and eight
/// bytes, with no hole between them.
pub open spec fn view_layout(bytes: Seq<u8>, view: PacketView, order: ByteOrder) -> bool {
    &&& bytes.len() == 40
    &&& bytes.subrange(0, 16) == view.src@
    &&& forall|i: int|
        0 <= i < 8 ==> #[trigger] word_at(bytes, i, order) == view_words(view)[i]
    &&& bytes.subrange(32, 40) == view_octets(view)
}

/// The 16-bit word `i` of the eight behind the address.
pub open spec fn word_at(bytes: Seq<u8>, i: int, order: ByteOrder) -> nat {
    crate::bytes::number(bytes.subrange(16 + 2 * i, 18 + 2 * i), order)
}

/// The eight 16-bit words of a view, in order.
pub open spec fn view_words(view: PacketView) -> Seq<u16> {
    seq![
        view.l3_off,
        view.l4_off,
        view.payload_off,
        view.sport,
        view.dport,
        view.ip_total_len,
        view.l4_len,
        view.packet_len,
    ]
}

/// The eight single bytes of a view, in order.
pub open spec fn view_octets(view: PacketView) -> Seq<u8> {
    seq![
        view.family_raw,
        view.proto,
        view.frag_raw,
        view.tcp_flags,
        view.icmp_type,
        view.icmp_code,
        view.anomalies,
        view.vlan_tags,
    ]
}

impl PacketView {
    fn octets(&self) -> (octets: [u8; 8])
        ensures
            octets@ == view_octets(*self),
    {
        [
            self.family_raw,
            self.proto,
            self.frag_raw,
            self.tcp_flags,
            self.icmp_type,
            self.icmp_code,
            self.anomalies,
            self.vlan_tags,
        ]
    }

    /// The forty bytes of a view, as a kernel map holds them.
    pub fn to_bytes(&self, order: ByteOrder) -> (bytes: Vec<u8>)
        ensures
            view_layout(bytes@, *self, order),
    {
        let mut bytes: Vec<u8> = Vec::new();
        let mut i: usize = 0;
        while i < 16
            invariant
                i <= 16,
                bytes@ == self.src@.take(i as int),
            decreases 16 - i,
        {
            bytes.push(self.src[i]);
            assert(self.src@.take(i + 1) =~= self.src@.take(i as int).push(self.src@[i as int]));
            i += 1;
        }
        let words: [u16; 8] = [
            self.l3_off,
            self.l4_off,
            self.payload_off,
            self.sport,
            self.dport,
            self.ip_total_len,
            self.l4_len,
            self.packet_len,
        ];
        assert(words@ =~= view_words(*self));
        assert(bytes@ =~= self.src@);
        let mut w: usize = 0;
        while w < 8
            invariant
                w <= 8,
                bytes@.len() == 16 + 2 * w,
                bytes@.take(16) == self.src@,
                forall|j: int| 0 <= j < w ==> #[trigger] word_at(bytes@, j, order) == words@[j],
            decreases 8 - w,
        {
            let ghost before = bytes@;
            push_number(&mut bytes, words[w] as u64, 2, order);
            proof {
                let len = before.len() as int;
                assert(bytes@.take(16) =~= bytes@.take(len).take(16));
                assert forall|j: int| 0 <= j < w + 1 implies #[trigger] word_at(bytes@, j, order)
                    == words@[j] by {
                    let run = bytes@.subrange(16 + 2 * j, 18 + 2 * j);
                    if j < w {
                        assert(word_at(before, j, order) == words@[j]);
                        assert(run =~= bytes@.take(len).subrange(16 + 2 * j, 18 + 2 * j));
                    } else {
                        assert(run =~= bytes@.skip(len));
                    }
                }
            }
            w += 1;
        }
        let ghost head = bytes@;
        let octets: [u8; 8] = self.octets();
        let mut o: usize = 0;
        while o < 8
            invariant
                o <= 8,
                bytes@ == head + octets@.take(o as int),
            decreases 8 - o,
        {
            bytes.push(octets[o]);
            assert(octets@.take(o + 1) =~= octets@.take(o as int).push(octets@[o as int]));
            o += 1;
        }
        proof {
            assert(bytes@ =~= head + view_octets(*self));
            assert(bytes@.subrange(32, 40) =~= view_octets(*self));
            assert(bytes@.subrange(0, 16) =~= head.take(16));
            assert forall|j: int| 0 <= j < 8 implies #[trigger] word_at(bytes@, j, order)
                == view_words(*self)[j] by {
                assert(word_at(head, j, order) == words@[j]);
                assert(bytes@.subrange(16 + 2 * j, 18 + 2 * j) =~= head.subrange(
                    16 + 2 * j,
                    18 + 2 * j,
                ));
            }
        }
        bytes
    }
}

/// A run of payload is there exactly where its offset in the packet is at most 9216 and the packet
/// reaches to its end, and is then byte for byte what the packet holds from that offset on.
pub proof fn a_payload_run_is_the_bytes_of_the_packet(
    packet: Seq<u8>,
    payload_off: u16,
    at: u16,
    len: int,
)
    requires
        len >= 0,
    ensures
        payload_run(packet, payload_off, at, len) is Some <==> payload_off + at <= 9216 && payload_off
            + at + len <= packet.len(),
        payload_run(packet, payload_off, at, len) matches Some(run) ==> run.len() == len && forall|
            i: int,
        |
            0 <= i < len ==> #[trigger] run[i] == packet[payload_off + at + i],
{
}

/// Where each field of a view sits in its forty bytes: the source address first, then eight 16-bit
/// words, then eight single bytes.
pub proof fn the_fields_of_a_view_sit_at_their_offsets(
    bytes: Seq<u8>,
    view: PacketView,
    order: ByteOrder,
)
    requires
        view_layout(bytes, view, order),
    ensures
        bytes.len() == 40,
        forall|i: int| 0 <= i < 16 ==> bytes[i] == #[trigger] view.src@[i],
        crate::bytes::number(bytes.subrange(16, 18), order) == view.l3_off,
        crate::bytes::number(bytes.subrange(18, 20), order) == view.l4_off,
        crate::bytes::number(bytes.subrange(20, 22), order) == view.payload_off,
        crate::bytes::number(bytes.subrange(22, 24), order) == view.sport,
        crate::bytes::number(bytes.subrange(24, 26), order) == view.dport,
        crate::bytes::number(bytes.subrange(26, 28), order) == view.ip_total_len,
        crate::bytes::number(bytes.subrange(28, 30), order) == view.l4_len,
        crate::bytes::number(bytes.subrange(30, 32), order) == view.packet_len,
        bytes[32] == view.family_raw,
        bytes[33] == view.proto,
        bytes[34] == view.frag_raw,
        bytes[35] == view.tcp_flags,
        bytes[36] == view.icmp_type,
        bytes[37] == view.icmp_code,
        bytes[38] == view.anomalies,
        bytes[39] == view.vlan_tags,
{
    assert(word_at(bytes, 0, order) == view_words(view)[0]);
    assert(word_at(bytes, 1, order) == view_words(view)[1]);
    assert(word_at(bytes, 2, order) == view_words(view)[2]);
    assert(word_at(bytes, 3, order) == view_words(view)[3]);
    assert(word_at(bytes, 4, order) == view_words(view)[4]);
    assert(word_at(bytes, 5, order) == view_words(view)[5]);
    assert(word_at(bytes, 6, order) == view_words(view)[6]);
    assert(word_at(bytes, 7, order) == view_words(view)[7]);
    let octets = bytes.subrange(32, 40);
    assert(octets == view_octets(view));
    assert(bytes[32] == octets[0] && bytes[33] == octets[1] && bytes[34] == octets[2] && bytes[35]
        == octets[3]);
    assert(bytes[36] == octets[4] && bytes[37] == octets[5] && bytes[38] == octets[6] && bytes[39]
        == octets[7]);
    assert forall|i: int| 0 <= i < 16 implies bytes[i] == #[trigger] view.src@[i] by {
        assert(bytes.subrange(0, 16)[i] == bytes[i]);
    }
}

} // verus!
