//! The bytes of the structures the kernel and the agent share.

use std::mem::{align_of, size_of};

use lorica::{
    anomaly, Action, ByteOrder, Deadline, Family, FragState, LpmKey, LpmValue, PacketView, Scope,
    MAX_OFFSET, SCOPE_MAX,
};

fn zeroed_view() -> PacketView {
    PacketView {
        src: [0; 16],
        l3_off: 0,
        l4_off: 0,
        payload_off: 0,
        sport: 0,
        dport: 0,
        ip_total_len: 0,
        l4_len: 0,
        packet_len: 0,
        family_raw: 0,
        proto: 0,
        frag_raw: 0,
        tcp_flags: 0,
        icmp_type: 0,
        icmp_code: 0,
        anomalies: 0,
        vlan_tags: 0,
    }
}

/// The places of the bytes that are not zero.
fn touched(bytes: Vec<u8>) -> Vec<usize> {
    (0..bytes.len()).filter(|&at| bytes[at] != 0).collect()
}

/// The address, eight 16-bit words and eight bytes fill forty bytes exactly.
#[test]
fn the_parsed_view_has_no_hole_in_it() {
    let order = ByteOrder::host();
    let mut view = zeroed_view();
    view.src = [0xff; 16];
    assert_eq!(touched(view.to_bytes(order)), (0..16).collect::<Vec<usize>>());
    let mut view = zeroed_view();
    view.l3_off = u16::MAX;
    assert_eq!(touched(view.to_bytes(order)), vec![16, 17]);
    let mut view = zeroed_view();
    view.family_raw = 1;
    assert_eq!(touched(view.to_bytes(order)), vec![32]);
    assert_eq!(view.to_bytes(order).len(), 40);
    assert_eq!(size_of::<PacketView>(), 40);
    assert_eq!(align_of::<PacketView>(), 2);
}

#[test]
fn every_field_of_the_view_has_its_place() {
    let mut view = zeroed_view();
    view.l4_off = 0x0102;
    view.packet_len = 0x0304;
    view.vlan_tags = 5;
    let little = view.to_bytes(ByteOrder::Little);
    assert_eq!(&little[18..20], &[0x02, 0x01]);
    assert_eq!(&little[30..32], &[0x04, 0x03]);
    assert_eq!(little[39], 5);
    let big = view.to_bytes(ByteOrder::Big);
    assert_eq!(&big[18..20], &[0x01, 0x02]);
    assert_eq!(&big[30..32], &[0x03, 0x04]);
    assert_eq!(big[39], 5);
}

#[test]
fn a_payload_read_stops_at_the_end_of_the_packet() {
    let packet: [u8; 12] = [0, 1, 2, 3, 4, 5, 6, 7, 8, 9, 10, 11];
    let mut view = zeroed_view();
    view.packet_len = packet.len() as u16;
    view.payload_off = 8;

    assert_eq!(view.payload_bytes::<4>(&packet, 0), Some([8, 9, 10, 11]));
    assert_eq!(view.payload_bytes::<2>(&packet, 2), Some([10, 11]));
    assert_eq!(
        view.payload_bytes::<4>(&packet, 1),
        None,
        "one byte past the end"
    );
    assert_eq!(view.payload_bytes::<2>(&packet, 3), None);
    // A payload offset outside the frame the parser bounds itself to.
    view.payload_off = u16::MAX;
    assert_eq!(view.payload_bytes::<2>(&packet, 0), None);
}

/// The offset is bounded by the largest frame, and not only by the packet.
#[test]
fn a_payload_offset_past_the_largest_frame_reads_nothing() {
    let packet = vec![7u8; MAX_OFFSET + 16];
    let mut view = zeroed_view();
    view.payload_off = MAX_OFFSET as u16;
    assert_eq!(view.payload_bytes::<2>(&packet, 0), Some([7, 7]));
    assert_eq!(view.payload_bytes::<2>(&packet, 1), None);
}

#[test]
fn the_raw_fields_of_a_view_decode_whatever_they_hold() {
    let mut view = zeroed_view();
    assert_eq!(view.family(), Family::V4);
    assert_eq!(view.frag(), FragState::Whole);
    assert!(!view.has(anomaly::IP_OPTIONS_PRESENT));
    view.family_raw = 1;
    view.frag_raw = 1;
    view.anomalies = anomaly::IPV6_EXT_PRESENT;
    assert_eq!(view.family(), Family::V6);
    assert_eq!(view.frag(), FragState::First);
    assert!(view.has(anomaly::IPV6_EXT_PRESENT));
    assert!(!view.has(anomaly::IP_OPTIONS_PRESENT));
    view.frag_raw = 2;
    assert_eq!(view.frag(), FragState::Later);
}

/// The kernel reads the prefix length as the leading word of a trie key.
#[test]
fn lpm_key_matches_what_the_trie_requires() {
    let order = ByteOrder::host();
    let key = LpmKey { prefix_len: u32::MAX, addr: [0; 16] };
    assert_eq!(touched(key.to_bytes(order)), vec![0, 1, 2, 3]);
    let key = LpmKey { prefix_len: 0, addr: [0xff; 16] };
    assert_eq!(touched(key.to_bytes(order)), (4..20).collect::<Vec<usize>>());
    assert_eq!(key.to_bytes(order).len(), 20);
    assert_eq!(size_of::<LpmKey>(), 20);
}

#[test]
fn lpm_value_offsets() {
    let order = ByteOrder::host();
    let mut value = LpmValue::zeroed();
    value.action = Action::Mark;
    assert_eq!(touched(value.to_bytes(order)), vec![0]);
    let mut value = LpmValue::zeroed();
    value.priority = 0xff;
    assert_eq!(touched(value.to_bytes(order)), vec![1]);
    let mut value = LpmValue::zeroed();
    value.scope_len = 4;
    assert_eq!(touched(value.to_bytes(order)), vec![2]);
    let mut value = LpmValue::zeroed();
    value.scopes[0] = Scope::new(0xff, 0, 0);
    assert_eq!(touched(value.to_bytes(order)), vec![4]);
    value.scopes[0] = Scope::new(0, 0, 0);
    value.scopes[3] = Scope::new(0, 0, u16::MAX);
    assert_eq!(touched(value.to_bytes(order)), vec![26, 27]);
    let mut value = LpmValue::zeroed();
    value.deadline = Deadline(u64::MAX);
    assert_eq!(touched(value.to_bytes(order)), (32..40).collect::<Vec<usize>>());
    let mut value = LpmValue::zeroed();
    value.counter_idx = u32::MAX;
    assert_eq!(touched(value.to_bytes(order)), (40..44).collect::<Vec<usize>>());
    assert_eq!(value.to_bytes(order).len(), 48);
    assert_eq!(align_of::<LpmValue>(), 8);
}

#[test]
fn scope_offsets() {
    let order = ByteOrder::host();
    assert_eq!(touched(Scope::new(0xff, 0, 0).to_bytes(order)), vec![0]);
    assert_eq!(touched(Scope::new(0, u16::MAX, 0).to_bytes(order)), vec![2, 3]);
    assert_eq!(touched(Scope::new(0, 0, u16::MAX).to_bytes(order)), vec![4, 5]);
    assert_eq!(Scope::new(0, 0, 0).to_bytes(order).len(), 6);
    assert_eq!(size_of::<Scope>(), 6);
}

/// The padding is copied verbatim into kernel memory.
#[test]
fn constructors_initialise_the_padding() {
    let order = ByteOrder::host();
    let bytes = LpmValue::zeroed().to_bytes(order);
    assert!(
        bytes.iter().all(|b| *b == 0),
        "zeroed left a byte set: {bytes:?}"
    );

    let bytes = Scope::new(17, 30_120, 30_120).to_bytes(order);
    assert_eq!(bytes[1], 0, "the padding byte of a scope was left uninitialised");
}

#[test]
fn action_rejects_an_out_of_range_discriminant() {
    assert_eq!(Action::from_u8(0), Some(Action::Continue));
    assert_eq!(Action::from_u8(4), Some(Action::Mark));
    assert_eq!(Action::from_u8(5), None);
    assert_eq!(Action::from_u8(255), None);
}

#[test]
fn a_verdict_survives_its_byte() {
    for raw in 0..=4u8 {
        assert_eq!(Action::from_u8(raw).map(Action::to_u8), Some(raw));
    }
}

#[test]
fn an_ipv4_prefix_lands_in_the_mapped_range() {
    let key = LpmKey::v4([10, 90, 1, 0], 24);
    assert_eq!(key.prefix_len, 120);
    assert_eq!(&key.addr[10..12], &[0xff, 0xff]);
    assert_eq!(&key.addr[12..], &[10, 90, 1, 0]);
    assert_eq!(LpmKey::host_v4([10, 90, 1, 1]).prefix_len, 128);
}

#[test]
fn a_scoped_entry_does_not_apply_outside_its_scope() {
    let mut value = LpmValue::zeroed();
    value.action = Action::Allow;
    value.scope_len = 1;
    value.scopes[0] = Scope::new(17, 30_120, 30_120);

    assert!(value.applies_to(17, 30_120));
    assert!(!value.applies_to(17, 30_121), "wrong port must not match");
    assert!(
        !value.applies_to(6, 30_120),
        "wrong protocol must not match"
    );
}

#[test]
fn an_entry_without_scope_applies_to_everything() {
    let mut value = LpmValue::zeroed();
    value.action = Action::Drop;
    assert_eq!(value.scope_len, 0);
    assert!(value.applies_to(6, 443));
    assert!(value.applies_to(17, 1));
}

/// Userspace writes the length, so it is clamped rather than trusted.
#[test]
fn an_oversized_scope_len_is_clamped() {
    let mut value = LpmValue::zeroed();
    value.scope_len = 200;
    for i in 0..SCOPE_MAX {
        value.scopes[i] = Scope::new(6, 80, 80);
    }
    assert!(value.applies_to(6, 80));
    assert!(!value.applies_to(6, 81));
}

/// A scope behind the length is not read.
#[test]
fn a_scope_past_the_length_does_not_count() {
    let mut value = LpmValue::zeroed();
    value.scope_len = 1;
    value.scopes[0] = Scope::new(6, 10, 20);
    value.scopes[1] = Scope::new(17, 0, u16::MAX);
    assert!(value.applies_to(6, 10) && value.applies_to(6, 20));
    assert!(!value.applies_to(6, 9) && !value.applies_to(6, 21));
    assert!(!value.applies_to(17, 53));
}

#[test]
fn deadline_is_a_bare_u64() {
    assert_eq!(size_of::<Deadline>(), 8);
    assert_eq!(align_of::<Deadline>(), 8);
    let mut value = LpmValue::zeroed();
    value.deadline = Deadline(u64::MAX);
    assert_eq!(touched(value.to_bytes(ByteOrder::host()))[0], 32);
}

/// The order of this machine is the one its own integers are stored in.
#[test]
fn the_host_order_is_the_one_of_the_machine() {
    let key = LpmKey { prefix_len: 0x0102_0304, addr: [0; 16] };
    assert_eq!(&key.to_bytes(ByteOrder::host())[..4], &0x0102_0304u32.to_ne_bytes());
    assert_eq!(ByteOrder::from_one([1, 0]), ByteOrder::Little);
    assert_eq!(ByteOrder::from_one([0, 1]), ByteOrder::Big);
}
