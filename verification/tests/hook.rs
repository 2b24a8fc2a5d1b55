//! The hook of an interface: the answer of the kernel, the program in the way, and the attach.

use lorica::bytes::ByteOrder;
use lorica::loader::attach::{
    classify, classify_for, confirm_native, describe_occupant, errno_of, release, Look, Refusal,
    Release, RELEASE_TIMEOUT_MS,
};
use lorica::loader::hook_probe::{
    has_body, link_request, occupant, parse, AttachMode, HookState, LoadedProgram, Occupant,
    ProbeError, IFINFOMSG_LEN, IFLA_XDP_ATTACHED, IFLA_XDP_PROG_ID,
};
use lorica::netlink::{next_attribute, NLMSG_HDR_LEN};

fn attribute(kind: u16, payload: &[u8]) -> Vec<u8> {
    let mut bytes = ((payload.len() + 4) as u16).to_ne_bytes().to_vec();
    bytes.extend(kind.to_ne_bytes());
    bytes.extend(payload);
    bytes.resize(bytes.len().next_multiple_of(4), 0);
    bytes
}

fn reply(kind: u16, body: &[u8]) -> Vec<u8> {
    let mut bytes = ((NLMSG_HDR_LEN + body.len()) as u32).to_ne_bytes().to_vec();
    bytes.extend(kind.to_ne_bytes());
    bytes.resize(NLMSG_HDR_LEN, 0);
    bytes.extend(body);
    bytes
}

/// The answer for a link whose hook nests the given attributes.
fn link(nested: &[u8]) -> Vec<u8> {
    let mut body = vec![0u8; IFINFOMSG_LEN];
    body.extend(attribute(3, b"eth0\0"));
    body.extend(attribute(libc::IFLA_XDP, nested));
    reply(libc::RTM_NEWLINK, &body)
}

fn parsed(reply: &[u8]) -> Result<HookState, ProbeError> {
    assert!(has_body(reply, ByteOrder::host()));
    parse(reply, ByteOrder::host())
}

#[test]
fn a_native_program_is_read_off_the_answer() {
    let mut nested = attribute(IFLA_XDP_ATTACHED, &[1]);
    nested.extend(attribute(IFLA_XDP_PROG_ID, &42u32.to_ne_bytes()));
    assert_eq!(
        parsed(&link(&nested)),
        Ok(HookState { prog_id: Some(42), mode: AttachMode::Native })
    );
}

/// The kernel reports a zero id for a hook it considers free.
#[test]
fn a_zero_id_is_a_free_hook() {
    let mut nested = attribute(IFLA_XDP_ATTACHED, &[0]);
    nested.extend(attribute(IFLA_XDP_PROG_ID, &[0; 4]));
    let free = HookState { prog_id: None, mode: AttachMode::Free };
    assert_eq!(parsed(&link(&nested)), Ok(free));
    assert_eq!(parsed(&reply(libc::RTM_NEWLINK, &[0; IFINFOMSG_LEN])), Ok(free));
}

#[test]
fn an_answer_that_says_nothing_is_told_why() {
    assert_eq!(parsed(&[0; 15]), Err(ProbeError::Short));
    let mut long = reply(libc::RTM_NEWLINK, &[0; IFINFOMSG_LEN]);
    long[..4].copy_from_slice(&100u32.to_ne_bytes());
    assert_eq!(parsed(&long), Err(ProbeError::Truncated { claimed: 100, carried: 32 }));
    assert_eq!(
        parsed(&reply(libc::NLMSG_ERROR as u16, &(-libc::ENODEV).to_ne_bytes())),
        Err(ProbeError::Refused(libc::ENODEV))
    );
    assert_eq!(parsed(&reply(libc::RTM_NEWROUTE, &[])), Err(ProbeError::NotALink(24)));
}

#[test]
fn an_answer_without_its_body_is_not_parsed() {
    let order = ByteOrder::host();
    assert!(!has_body(&reply(libc::NLMSG_ERROR as u16, &[0; 3]), order));
    assert!(!has_body(&reply(libc::NLMSG_ERROR as u16, &i32::MIN.to_ne_bytes()), order));
    assert!(!has_body(&reply(libc::RTM_NEWLINK, &[0; IFINFOMSG_LEN - 1]), order));
}

#[test]
fn what_is_wrong_with_an_answer_in_words() {
    assert_eq!(
        ProbeError::Short.describe(),
        "the netlink answer is shorter than its own header"
    );
    assert_eq!(
        ProbeError::Truncated { claimed: 100, carried: 32 }.describe(),
        "the netlink answer claims 100 bytes and carries 32"
    );
    assert_eq!(
        ProbeError::NotALink(24).describe(),
        "expected RTM_NEWLINK from the kernel, got message type 24"
    );
    assert_eq!(ProbeError::Refused(19).describe(), "the kernel refused the query");
}

#[test]
fn every_mode_has_a_name() {
    let names: Vec<String> = (0..6).map(|raw| AttachMode::from_kernel(raw).describe()).collect();
    assert_eq!(
        names,
        vec![
            "none",
            "native",
            "generic",
            "hardware offload",
            "several modes at once",
            "mode 5 this build does not know"
        ]
    );
}

#[test]
fn the_request_for_one_link() {
    let request = link_request(7, ByteOrder::host());
    assert_eq!(request.len(), 32);
    assert_eq!(&request[..4], &32u32.to_ne_bytes());
    assert_eq!(&request[4..6], &libc::RTM_GETLINK.to_ne_bytes());
    assert_eq!(&request[6..8], &(libc::NLM_F_REQUEST as u16).to_ne_bytes());
    assert_eq!(&request[16..20], &[0; 4]);
    assert_eq!(&request[20..24], &7u32.to_ne_bytes());
    assert_eq!(&request[24..], &[0; 8]);
}

#[test]
fn attributes_are_walked_to_the_first_malformed_one() {
    let order = ByteOrder::host();
    let mut run = attribute(1, &[9]);
    run.extend(attribute(0x8002, &[1, 2, 3, 4]));
    let end = run.len();
    let first = next_attribute(&run, 0, end, order).expect("an attribute");
    assert_eq!((first.kind, first.from, first.to, first.next), (1, 4, 5, 8));
    let second = next_attribute(&run, first.next, end, order).expect("an attribute");
    assert_eq!((second.kind, second.from, second.to, second.next), (2, 12, 16, 16));
    assert!(next_attribute(&run, second.next, end, order).is_none());
    // A length shorter than the header, and one past the end.
    assert!(next_attribute(&[3, 0, 1, 0], 0, 4, ByteOrder::Little).is_none());
    assert!(next_attribute(&[5, 0, 1, 0], 0, 4, ByteOrder::Little).is_none());
}

#[test]
fn an_occupant_is_named_as_far_as_the_kernel_names_it() {
    let loaded = [
        LoadedProgram { id: 1, name: Some("other".to_string()), tag: 1 },
        LoadedProgram { id: 42, name: Some("drop_\"all\"".to_string()), tag: 0xabc },
        LoadedProgram { id: 43, name: None, tag: 7 },
    ];
    let held = |id| HookState { prog_id: Some(id), mode: AttachMode::Native };
    assert_eq!(
        occupant(held(42), &loaded).expect("an occupant").describe(),
        "program id 42 named \"drop_\\\"all\\\"\", tag 0000000000000abc, attached in native mode"
    );
    let unnamed = occupant(held(43), &loaded).expect("an occupant");
    assert_eq!((unnamed.name.as_str(), unnamed.tag), ("<unnamed>", 7));
    let gone = occupant(held(44), &loaded).expect("an occupant");
    assert_eq!((gone.prog_id, gone.name.as_str(), gone.tag), (44, "<unnamed>", 0));
    assert!(occupant(HookState { prog_id: None, mode: AttachMode::Free }, &loaded).is_none());
}

#[test]
fn what_a_failed_attach_stands_for() {
    assert_eq!(classify(Some(libc::EBUSY)), Refusal::Occupied);
    assert_eq!(classify(Some(libc::EEXIST)), Refusal::Occupied);
    assert_eq!(classify(Some(libc::EOPNOTSUPP)), Refusal::NotNative);
    assert_eq!(classify(Some(libc::EPERM)), Refusal::Failed);
    assert_eq!(classify(None), Refusal::Failed);
    assert_eq!(classify_for(Some(122), 122), Refusal::NotNative);
    assert_eq!(classify_for(Some(122), 95), Refusal::Failed);
    assert_eq!(errno_of(&[None, Some(16), Some(1)]), Some(16));
    assert_eq!(errno_of(&[None, None]), None);
}

#[test]
fn an_attach_is_held_to_the_mode_the_kernel_reports() {
    let state = |mode| Ok(HookState { prog_id: Some(1), mode });
    assert_eq!(confirm_native(state(AttachMode::Native)), Ok(()));
    assert_eq!(confirm_native(state(AttachMode::Generic)), Err("generic".to_string()));
    assert_eq!(
        confirm_native(Err("gone".to_string())),
        Err("nothing it could read back: gone".to_string())
    );
}

#[test]
fn what_an_operator_is_told_of_a_busy_hook() {
    let held = Occupant {
        prog_id: 3,
        name: "x".to_string(),
        tag: u64::MAX,
        mode: AttachMode::Generic,
    };
    assert_eq!(
        describe_occupant(Ok(Some(held))),
        "program id 3 named \"x\", tag ffffffffffffffff, attached in generic mode"
    );
    assert_eq!(
        describe_occupant(Ok(None)),
        "a program that was gone by the time the hook was queried"
    );
    assert_eq!(
        describe_occupant(Err("no".to_string())),
        "a program the kernel would not name (no)"
    );
}

#[test]
fn a_detach_waits_until_the_hook_is_free() {
    let held = Look::Hook(HookState { prog_id: Some(1), mode: AttachMode::Native });
    let free = Look::Hook(HookState { prog_id: None, mode: AttachMode::Free });
    assert_eq!(release(held, 0), Release::Wait);
    assert_eq!(release(held, RELEASE_TIMEOUT_MS - 1), Release::Wait);
    assert_eq!(release(held, RELEASE_TIMEOUT_MS), Release::StillAttached);
    assert_eq!(release(free, RELEASE_TIMEOUT_MS), Release::Free);
    assert_eq!(release(Look::Gone, 0), Release::Free);
    assert_eq!(release(Look::Unread, 0), Release::Wait);
    assert_eq!(release(Look::Unread, RELEASE_TIMEOUT_MS), Release::StillAttached);
}
