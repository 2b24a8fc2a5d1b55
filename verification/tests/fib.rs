//! Routes off the wire, the criterion they answer, and the decision that is held against time.

use lorica::bytes::ByteOrder;
use lorica::fib::criterion::{
    discriminates, Discrimination, Family, Route, RT_TABLE_DEFAULT, RT_TABLE_LOCAL, RT_TABLE_MAIN,
};
use lorica::fib::netlink::{
    apply, as_signed, dump_request, dump_step, interfaces_of, same_route, store, DumpStep, Progress,
    RTA_DST, RTA_MULTIPATH, RTA_OIF, RTA_TABLE, RTMSG_LEN, RTM_DST_LEN_OFFSET, RTM_TABLE_OFFSET,
    RTM_TYPE_OFFSET, RTNEXTHOP_LEN, RTNH_IFINDEX_OFFSET,
};
use lorica::fib::watcher::{received, Hold, Poll, Received, RouteWatcher, DEFAULT_HOLD};
use lorica::netlink::NLMSG_HDR_LEN;

const START: u64 = 5_000_000_000;

/// Arming on a convergence that has transiently lost the default route is a false positive, so
/// the window has to pass first.
#[test]
fn arming_waits_out_the_window() {
    let mut hold = Hold {
        window: DEFAULT_HOLD,
        reported: Discrimination::DefaultRouteOnIngress,
        pending: None,
    };
    assert_eq!(hold.settle(Discrimination::Discriminates, START), None);
    assert_eq!(
        hold.settle(Discrimination::Discriminates, START + DEFAULT_HOLD / 2),
        None
    );
    assert_eq!(
        hold.settle(Discrimination::Discriminates, START + DEFAULT_HOLD),
        Some(Discrimination::Discriminates)
    );
    assert_eq!(hold.reported, Discrimination::Discriminates);
}

#[test]
fn a_flap_inside_the_window_reports_nothing() {
    let mut hold = Hold {
        window: DEFAULT_HOLD,
        reported: Discrimination::DefaultRouteOnIngress,
        pending: None,
    };
    assert_eq!(hold.settle(Discrimination::Discriminates, START), None);
    assert_eq!(
        hold.settle(Discrimination::DefaultRouteOnIngress, START + DEFAULT_HOLD / 2),
        None
    );
    assert_eq!(
        hold.settle(Discrimination::Discriminates, START + DEFAULT_HOLD),
        None,
        "the window has to restart from the second change, not from the first"
    );
}

#[test]
fn disarming_does_not_wait() {
    let mut hold = Hold {
        window: DEFAULT_HOLD,
        reported: Discrimination::Discriminates,
        pending: None,
    };
    assert_eq!(
        hold.settle(Discrimination::MultiplePaths, START),
        Some(Discrimination::MultiplePaths)
    );
    assert_eq!(hold.settle(Discrimination::MultiplePaths, START), None);
}

/// One message the way the kernel lays it out.
fn message(kind: u16, dst_len: u8, attributes: &[(u16, Vec<u8>)]) -> Vec<u8> {
    typed_message(kind, dst_len, 0, attributes)
}

fn typed_message(kind: u16, dst_len: u8, rtm_type: u8, attributes: &[(u16, Vec<u8>)]) -> Vec<u8> {
    let mut body = vec![0u8; RTMSG_LEN];
    body[0] = libc::AF_INET as u8;
    body[RTM_DST_LEN_OFFSET] = dst_len;
    body[RTM_TABLE_OFFSET] = RT_TABLE_MAIN as u8;
    body[RTM_TYPE_OFFSET] = rtm_type;
    for (attribute, payload) in attributes {
        body.extend(((payload.len() + 4) as u16).to_ne_bytes());
        body.extend(attribute.to_ne_bytes());
        body.extend(payload);
        body.resize(body.len().next_multiple_of(4), 0);
    }
    framed(kind, body)
}

fn framed(kind: u16, body: Vec<u8>) -> Vec<u8> {
    let mut message = Vec::with_capacity(NLMSG_HDR_LEN + body.len());
    message.extend(((NLMSG_HDR_LEN + body.len()) as u32).to_ne_bytes());
    message.extend(kind.to_ne_bytes());
    message.resize(NLMSG_HDR_LEN, 0);
    message.extend(body);
    message
}

fn nexthop(oif: u32) -> Vec<u8> {
    let mut entry = (RTNEXTHOP_LEN as u16).to_ne_bytes().to_vec();
    entry.resize(RTNH_IFINDEX_OFFSET, 0);
    entry.extend(oif.to_ne_bytes());
    entry
}

/// A deletion that does not land leaves a default route in the model that the kernel no longer
/// has.
#[test]
fn a_deleted_route_leaves_the_table() {
    let oif = (2u32).to_ne_bytes().to_vec();
    let mut table = Vec::new();
    apply(
        &mut table,
        &message(libc::RTM_NEWROUTE, 0, &[(RTA_OIF, oif.clone())]),
        ByteOrder::host(),
    );
    assert_eq!(discriminates(&table, 2), Discrimination::DefaultRouteOnIngress);
    apply(
        &mut table,
        &message(libc::RTM_DELROUTE, 0, &[(RTA_OIF, oif)]),
        ByteOrder::host(),
    );
    assert!(table.is_empty(), "{table:?}");
}

/// An equal-cost default route is one message, with its interfaces in its nexthops.
#[test]
fn an_equal_cost_default_route_expands_to_its_nexthops() {
    let mut multipath = nexthop(2);
    multipath.extend(nexthop(3));
    let mut table = Vec::new();
    apply(
        &mut table,
        &message(libc::RTM_NEWROUTE, 0, &[(RTA_MULTIPATH, multipath.clone())]),
        ByteOrder::host(),
    );
    assert_eq!(table.len(), 2, "{table:?}");
    assert_eq!(discriminates(&table, 2), Discrimination::MultiplePaths);
    apply(
        &mut table,
        &message(libc::RTM_DELROUTE, 0, &[(RTA_MULTIPATH, multipath)]),
        ByteOrder::host(),
    );
    assert!(table.is_empty(), "{table:?}");
}

fn route(dst_len: u8, table: u32, oif: Option<u32>) -> Route {
    Route { family: Family::V4, dst_len, dst: [0; 16], table, oif }
}

/// Neither the order of the routes, nor how often one is held, nor what the local table says.
#[test]
fn the_answer_depends_on_the_set_of_routes() {
    let default = route(0, RT_TABLE_MAIN, Some(3));
    let prefix = route(24, RT_TABLE_MAIN, Some(2));
    let local = route(0, RT_TABLE_LOCAL, Some(2));
    for ingress in 1..5 {
        let answer = discriminates(&[default, prefix], ingress);
        assert_eq!(discriminates(&[prefix, default], ingress), answer);
        assert_eq!(discriminates(&[prefix, default, prefix, default], ingress), answer);
        assert_eq!(discriminates(&[local, default, prefix, local], ingress), answer);
    }
}

#[test]
fn what_the_criterion_says_of_a_table() {
    assert_eq!(discriminates(&[], 2), Discrimination::NoPathOnIngress);
    // The default route leaves elsewhere, and one prefix through the ingress interface.
    let table = [route(0, RT_TABLE_MAIN, Some(3)), route(24, RT_TABLE_MAIN, Some(2))];
    assert_eq!(discriminates(&table, 2), Discrimination::Discriminates);
    assert_eq!(discriminates(&table, 3), Discrimination::DefaultRouteOnIngress);
    assert_eq!(discriminates(&table, 4), Discrimination::NoPathOnIngress);

    let table = [route(0, RT_TABLE_MAIN, None), route(24, RT_TABLE_MAIN, Some(2))];
    assert_eq!(discriminates(&table, 2), Discrimination::UnresolvedNexthop);
    let table = [route(0, RT_TABLE_MAIN, Some(3)), route(24, 100, Some(2))];
    assert_eq!(discriminates(&table, 2), Discrimination::PolicyRouting);
    // Local routes and the default table are not reached by rule.
    let table = [
        route(0, RT_TABLE_DEFAULT, Some(3)),
        route(32, RT_TABLE_LOCAL, Some(2)),
        route(24, RT_TABLE_MAIN, Some(2)),
    ];
    assert_eq!(discriminates(&table, 2), Discrimination::Discriminates);
}

/// The prefix tells routes apart and decides nothing.
#[test]
fn two_tables_that_differ_in_prefixes_answer_alike() {
    let mut table = [route(0, RT_TABLE_MAIN, Some(3)), route(24, RT_TABLE_MAIN, Some(2))];
    let answer = discriminates(&table, 2);
    table[1].dst = [9; 16];
    assert_eq!(discriminates(&table, 2), answer);
    assert!(!same_route(&table[1], &route(24, RT_TABLE_MAIN, Some(2))));
    assert!(same_route(&table[0], &route(0, RT_TABLE_MAIN, Some(3))));
}

#[test]
fn only_one_answer_arms_the_stage() {
    assert!(Discrimination::Discriminates.enforce());
    for answer in [
        Discrimination::DefaultRouteOnIngress,
        Discrimination::MultiplePaths,
        Discrimination::NoPathOnIngress,
        Discrimination::PolicyRouting,
        Discrimination::UnresolvedNexthop,
    ] {
        assert!(!answer.enforce());
        assert!(!answer.describe().is_empty());
    }
    assert_eq!(
        Discrimination::Discriminates.describe(),
        "strict reverse-path filtering discriminates here"
    );
}

#[test]
fn a_route_is_stored_once() {
    let mut table = Vec::new();
    store(&mut table, route(24, RT_TABLE_MAIN, Some(2)), true);
    store(&mut table, route(24, RT_TABLE_MAIN, Some(2)), true);
    store(&mut table, route(24, RT_TABLE_MAIN, Some(3)), true);
    assert_eq!(table.len(), 2);
    store(&mut table, route(24, RT_TABLE_MAIN, Some(2)), false);
    assert_eq!(table, vec![route(24, RT_TABLE_MAIN, Some(3))]);
}

#[test]
fn every_attribute_of_a_route_is_read() {
    let mut table = Vec::new();
    let progress = apply(
        &mut table,
        &message(
            libc::RTM_NEWROUTE,
            24,
            &[
                (RTA_DST, vec![10, 90, 1, 0]),
                (RTA_OIF, 7u32.to_ne_bytes().to_vec()),
                (RTA_TABLE, 1_000u32.to_ne_bytes().to_vec()),
                // Flags above the type are masked off, and an attribute nobody reads is skipped.
                (0x8000 | 60, vec![1]),
            ],
        ),
        ByteOrder::host(),
    );
    assert_eq!(progress, Progress::More);
    let mut dst = [0; 16];
    dst[..4].copy_from_slice(&[10, 90, 1, 0]);
    assert_eq!(
        table,
        vec![Route { family: Family::V4, dst_len: 24, dst, table: 1_000, oif: Some(7) }]
    );
}

/// A route that deliberately leads nowhere leaves through interface zero, and one whose interface
/// is not stated through none that is known.
#[test]
fn a_blackhole_is_not_an_unknown_interface() {
    let mut table = Vec::new();
    apply(&mut table, &typed_message(libc::RTM_NEWROUTE, 8, 6, &[]), ByteOrder::host());
    apply(&mut table, &typed_message(libc::RTM_NEWROUTE, 9, 1, &[]), ByteOrder::host());
    assert_eq!(table, vec![route(8, RT_TABLE_MAIN, Some(0)), route(9, RT_TABLE_MAIN, None)]);
}

#[test]
fn the_interfaces_of_a_run_of_nexthops() {
    let mut run = nexthop(2);
    run.extend(nexthop(3));
    assert_eq!(interfaces_of(&run, 0, run.len(), ByteOrder::host()), vec![2, 3]);
    assert_eq!(interfaces_of(&run, 0, 7, ByteOrder::host()), Vec::<u32>::new());
}

#[test]
fn a_datagram_is_applied_message_by_message() {
    let order = ByteOrder::host();
    let oif = |index: u32| vec![(RTA_OIF, index.to_ne_bytes().to_vec())];
    let mut datagram = message(libc::RTM_NEWROUTE, 24, &oif(2));
    datagram.extend(message(libc::RTM_NEWROUTE, 16, &oif(3)));
    let mut table = Vec::new();
    assert_eq!(apply(&mut table, &datagram, order), Progress::More);
    assert_eq!(table.len(), 2);

    datagram.extend(framed(libc::NLMSG_DONE as u16, Vec::new()));
    assert_eq!(apply(&mut table, &datagram, order), Progress::Done);
    assert_eq!(table.len(), 2);

    // A message of another kind is skipped.
    assert_eq!(apply(&mut table, &framed(libc::RTM_NEWLINK, vec![0; 16]), order), Progress::More);
    assert_eq!(table.len(), 2);
}

/// A header that claims more than there is, or less than itself, ends the datagram.
#[test]
fn a_malformed_header_ends_the_datagram() {
    let order = ByteOrder::host();
    let mut table = Vec::new();
    let mut datagram = message(libc::RTM_NEWROUTE, 24, &[]);
    let whole = datagram.len() as u32;
    datagram[..4].copy_from_slice(&(whole + 1).to_ne_bytes());
    assert_eq!(apply(&mut table, &datagram, order), Progress::Done);
    datagram[..4].copy_from_slice(&8u32.to_ne_bytes());
    assert_eq!(apply(&mut table, &datagram, order), Progress::Done);
    assert!(table.is_empty());
}

#[test]
fn a_refusal_of_the_kernel_is_told_with_its_code() {
    let order = ByteOrder::host();
    let mut table = Vec::new();
    let refused = framed(libc::NLMSG_ERROR as u16, (-libc::EPERM).to_ne_bytes().to_vec());
    assert_eq!(apply(&mut table, &refused, order), Progress::Refused(-libc::EPERM));
    assert_eq!(dump_step(&mut table, &refused, order), DumpStep::Refused(-libc::EPERM));
    // An error of zero is an acknowledgement.
    let done = framed(libc::NLMSG_ERROR as u16, 0i32.to_ne_bytes().to_vec());
    assert_eq!(apply(&mut table, &done, order), Progress::Done);
    assert_eq!(as_signed(u32::MAX), -1);
    assert_eq!(as_signed(0x8000_0000), i32::MIN);
    assert_eq!(as_signed(7), 7);
}

#[test]
fn a_dump_goes_on_until_it_is_done() {
    let order = ByteOrder::host();
    let mut table = Vec::new();
    assert_eq!(
        dump_step(&mut table, &message(libc::RTM_NEWROUTE, 24, &[]), order),
        DumpStep::Receive
    );
    assert_eq!(
        dump_step(&mut table, &framed(libc::NLMSG_DONE as u16, Vec::new()), order),
        DumpStep::Complete
    );
    assert_eq!(table.len(), 1);
}

#[test]
fn the_request_for_every_route() {
    let request = dump_request(ByteOrder::host());
    assert_eq!(request.len(), 28);
    assert_eq!(&request[..4], &28u32.to_ne_bytes());
    assert_eq!(&request[4..6], &libc::RTM_GETROUTE.to_ne_bytes());
    let flags = (libc::NLM_F_REQUEST | libc::NLM_F_DUMP) as u16;
    assert_eq!(&request[6..8], &flags.to_ne_bytes());
    assert_eq!(&request[12..], &[0; 16]);
}

#[test]
fn a_decision_that_holds_is_reported_once() {
    let mut hold = Hold { window: 10, reported: Discrimination::NoPathOnIngress, pending: None };
    for now in 100..110 {
        assert_eq!(hold.settle(Discrimination::Discriminates, now), None);
    }
    assert_eq!(
        hold.settle(Discrimination::Discriminates, 110),
        Some(Discrimination::Discriminates)
    );
    assert_eq!(hold.settle(Discrimination::Discriminates, 111), None);
    // A clock that went back has not waited.
    let mut hold = Hold { window: 1, reported: Discrimination::NoPathOnIngress, pending: None };
    assert_eq!(hold.settle(Discrimination::Discriminates, 100), None);
    assert_eq!(hold.settle(Discrimination::Discriminates, 50), None);
}

#[test]
fn a_tick_of_the_watcher() {
    let order = ByteOrder::host();
    let arms = vec![route(0, RT_TABLE_MAIN, Some(3)), route(24, RT_TABLE_MAIN, Some(2))];
    let mut watcher = RouteWatcher::new(arms, 2, DEFAULT_HOLD);
    assert_eq!(watcher.decision(), Discrimination::Discriminates);

    assert_eq!(watcher.poll(Received::Nothing, START, order), Poll::Receive);
    let second = message(libc::RTM_NEWROUTE, 0, &[(RTA_OIF, 4u32.to_ne_bytes().to_vec())]);
    assert_eq!(watcher.poll(Received::Datagram(&second), START, order), Poll::Receive);
    assert_eq!(watcher.poll(Received::Interrupted, START, order), Poll::Receive);
    assert_eq!(
        watcher.poll(Received::Drained, START, order),
        Poll::Settled(Some(Discrimination::MultiplePaths))
    );
    assert_eq!(watcher.decision(), Discrimination::MultiplePaths);
    assert_eq!(watcher.poll(Received::Drained, START, order), Poll::Settled(None));

    assert_eq!(watcher.poll(Received::Failed, START, order), Poll::Failed);
    assert_eq!(watcher.poll(Received::Nothing, START, order), Poll::Receive);
    // Lost messages are refused on every later tick.
    assert_eq!(watcher.poll(Received::Overflowed, START, order), Poll::Failed);
    assert_eq!(watcher.poll(Received::Nothing, START, order), Poll::Lost);
}

#[test]
fn what_a_read_of_the_socket_was() {
    let buffer = [1u8, 2, 3, 4];
    assert!(matches!(received(&buffer, 3, false, false, false), Received::Datagram([1, 2, 3])));
    assert!(matches!(received(&buffer, 0, false, false, false), Received::Drained));
    assert!(matches!(received(&buffer, -1, true, false, false), Received::Interrupted));
    assert!(matches!(received(&buffer, -1, false, true, false), Received::Drained));
    assert!(matches!(received(&buffer, -1, false, false, true), Received::Overflowed));
    assert!(matches!(received(&buffer, -1, false, false, false), Received::Failed));
}
