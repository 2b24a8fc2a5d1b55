//! The FIB moves, so the criterion is re-evaluated, and a flip is only reported once it has
//! held.
//!
//! A route convergence transiently loses the default route, the criterion then reads
//! "discriminates", and arming on that reading drops legitimate traffic whose prefix is briefly
//! absent. The hold time exists for it.

use vstd::prelude::*;

use super::criterion::{Family, Route, RouteView};
use crate::bytes::{read_u16, read_u32, ByteOrder};
use crate::netlink::{item_stride, next_attribute, request_header, NLMSG_HDR_LEN};
use crate::uapi::{
    af_inet, af_inet6, af_unspec, nlm_f_dump, nlm_f_request, nlmsg_done, nlmsg_error, rtm_delroute,
    rtm_getroute, rtm_newroute,
};
use vstd::slice::slice_subrange;

verus! {

/// Bytes of an `rtmsg`: `rtm_family`, `rtm_dst_len`, `rtm_src_len`, `rtm_tos`, `rtm_table`,
/// `rtm_protocol`, `rtm_scope`, `rtm_type`, then `rtm_flags`.
pub const RTMSG_LEN: usize = 12;

pub const RTM_DST_LEN_OFFSET: usize = 1;

pub const RTM_TABLE_OFFSET: usize = 4;

pub const RTM_TYPE_OFFSET: usize = 7;

/// The first and the last of the four route types that lead nowhere: blackhole, unreachable,
/// prohibit and throw.
pub const RTN_NOWHERE_FIRST: u8 = 6;

pub const RTN_NOWHERE_LAST: u8 = 9;

/// The destination prefix.
pub const RTA_DST: u16 = 1;

/// The output interface.
pub const RTA_OIF: u16 = 4;

/// The nexthops of an equal-cost route.
pub const RTA_MULTIPATH: u16 = 9;

/// The table id when it does not fit the byte in `rtmsg`.
pub const RTA_TABLE: u16 = 15;

/// Bytes of an `rtnexthop`: `rtnh_len`, `rtnh_flags`, `rtnh_hops`, `rtnh_ifindex`.
pub const RTNEXTHOP_LEN: usize = 8;

pub const RTNH_IFINDEX_OFFSET: usize = 4;

/// How a datagram ended.
#[derive(Clone, Copy, PartialEq, Eq, Debug, Structural)]
pub enum Progress {
    /// Every message of it was applied, and more may follow.
    More,
    /// The dump is over, or the datagram was malformed from here on.
    Done,
    /// The kernel refused, with this code.
    Refused(i32),
}

/// A route under construction: what the attributes said so far, and the nexthops where one of
/// them held any.
pub struct Draft {
    pub route: RouteView,
    pub multipath: Option<Seq<u8>>,
}

/// A prefix as it is held: zero-padded to sixteen bytes.
pub open spec fn padded(prefix: Seq<u8>) -> Seq<u8> {
    Seq::new(
        16,
        |i: int|
            if i < prefix.len() {
                prefix[i]
            } else {
                0
            },
    )
}

/// What the fixed part of a route message says. Until an attribute says otherwise the interface
/// is unstated, but for the types that lead nowhere.
pub open spec fn drafted(body: Seq<u8>, family: Family) -> Draft {
    Draft {
        route: RouteView {
            family,
            dst_len: body[1],
            dst: padded(Seq::empty()),
            table: body[4] as u32,
            oif: if RTN_NOWHERE_FIRST <= body[7] <= RTN_NOWHERE_LAST {
                Some(0)
            } else {
                None
            },
        },
        multipath: None,
    }
}

/// What one attribute adds to a draft. An interface or a table needs four bytes, and a prefix
/// has at most sixteen; an attribute of another size, or of another kind, adds nothing.
pub open spec fn noted(draft: Draft, a: crate::netlink::Attribute, order: ByteOrder) -> Draft {
    if a.kind == RTA_OIF && a.payload.len() >= 4 {
        Draft {
            route: RouteView {
                oif: Some(crate::netlink::word32(a.payload, 0, order) as u32),
                ..draft.route
            },
            ..draft
        }
    } else if a.kind == RTA_TABLE && a.payload.len() >= 4 {
        Draft {
            route: RouteView {
                table: crate::netlink::word32(a.payload, 0, order) as u32,
                ..draft.route
            },
            ..draft
        }
    } else if a.kind == RTA_DST && a.payload.len() <= 16 {
        Draft { route: RouteView { dst: padded(a.payload), ..draft.route }, ..draft }
    } else if a.kind == RTA_MULTIPATH {
        Draft { multipath: Some(a.payload), ..draft }
    } else {
        draft
    }
}

/// What all attributes add to a draft, in their order.
pub open spec fn all_noted(
    draft: Draft,
    attributes: Seq<crate::netlink::Attribute>,
    order: ByteOrder,
) -> Draft
    decreases attributes.len(),
{
    if attributes.len() == 0 {
        draft
    } else {
        all_noted(noted(draft, attributes[0], order), attributes.drop_first(), order)
    }
}

/// The interfaces of a run of nexthops. The walk stops at the first malformed one.
pub open spec fn interfaces(nexthops: Seq<u8>, order: ByteOrder) -> Seq<u32>
    decreases nexthops.len(),
{
    let length = crate::netlink::word16(nexthops, 0, order);
    if nexthops.len() < RTNEXTHOP_LEN || length < RTNEXTHOP_LEN || length > nexthops.len() {
        Seq::empty()
    } else {
        seq![crate::netlink::word32(nexthops, 4, order) as u32] + interfaces(
            nexthops.skip(crate::netlink::stride(length, nexthops.len() as int)),
            order,
        )
    }
}

/// The first place of a route in a table, from `from` on; the length where it is not there.
pub open spec fn place_of(table: Seq<RouteView>, route: RouteView, from: int) -> int
    decreases table.len() - from,
{
    if from >= table.len() {
        table.len() as int
    } else if table[from] == route {
        from
    } else {
        place_of(table, route, from + 1)
    }
}

/// A table with a route added or deleted. One that is already there is not added again. The last
/// route takes the place of a deleted one.
pub open spec fn stored(table: Seq<RouteView>, route: RouteView, adding: bool) -> Seq<RouteView> {
    let at = place_of(table, route, 0);
    if adding {
        if at < table.len() {
            table
        } else {
            table.push(route)
        }
    } else if at < table.len() {
        table.update(at, table.last()).drop_last()
    } else {
        table
    }
}

/// A table with one route for each of several interfaces added or deleted.
pub open spec fn all_stored(
    table: Seq<RouteView>,
    route: RouteView,
    oifs: Seq<u32>,
    adding: bool,
) -> Seq<RouteView>
    decreases oifs.len(),
{
    if oifs.len() == 0 {
        table
    } else {
        all_stored(
            stored(table, RouteView { oif: Some(oifs[0]), ..route }, adding),
            route,
            oifs.drop_first(),
            adding,
        )
    }
}

/// The family a route message is about, where it is one of the two.
pub open spec fn route_family(raw: u8) -> Option<Family> {
    if raw == 2 {
        Some(Family::V4)
    } else if raw == 10 {
        Some(Family::V6)
    } else {
        None
    }
}

/// A table with one route message applied. An equal-cost route is one route for each nexthop.
pub open spec fn recorded(
    table: Seq<RouteView>,
    body: Seq<u8>,
    adding: bool,
    order: ByteOrder,
) -> Seq<RouteView> {
    match route_family(body[0]) {
        None => table,
        Some(family) => {
            let draft = all_noted(
                drafted(body, family),
                crate::netlink::attributes(body.skip(RTMSG_LEN as int), order),
                order,
            );
            match draft.multipath {
                Some(nexthops) => all_stored(
                    table,
                    draft.route,
                    interfaces(nexthops, order),
                    adding,
                ),
                None => stored(table, draft.route, adding),
            }
        },
    }
}

/// A 32-bit word read as a signed number.
pub open spec fn signed(word: int) -> int {
    if word >= 0x8000_0000 {
        word - 0x1_0000_0000
    } else {
        word
    }
}

/// A table with the messages of a datagram applied, and how the datagram ended. An error of zero
/// is an acknowledgement, which a dump ends with when it carries no error.
pub open spec fn applied(table: Seq<RouteView>, messages: Seq<u8>, order: ByteOrder) -> (
    Seq<RouteView>,
    Progress,
)
    decreases messages.len(),
{
    let length = crate::netlink::word32(messages, 0, order);
    let kind = crate::netlink::word16(messages, 4, order);
    let code = signed(crate::netlink::word32(messages, 16, order));
    if messages.len() < NLMSG_HDR_LEN {
        (table, Progress::More)
    } else if length < NLMSG_HDR_LEN || length > messages.len() || kind == 3 {
        (table, Progress::Done)
    } else if kind == 2 && length >= 20 {
        (
            table,
            if code == 0 {
                Progress::Done
            } else {
                Progress::Refused(code as i32)
            },
        )
    } else {
        let next = messages.skip(crate::netlink::stride(length, messages.len() as int));
        if (kind == 24 || kind == 25) && length >= 28 {
            applied(recorded(table, messages.subrange(16, length), kind == 24, order), next, order)
        } else {
            applied(table, next, order)
        }
    }
}

/// Whether two routes are the same route.
pub fn same_route(a: &Route, b: &Route) -> (same: bool)
    ensures
        same == (a@ == b@),
{
    if a.family != b.family || a.dst_len != b.dst_len || a.table != b.table {
        return false;
    }
    let same_oif: bool = match (a.oif, b.oif) {
        (Some(x), Some(y)) => x == y,
        (None, None) => true,
        _ => false,
    };
    if !same_oif {
        return false;
    }
    let mut i: usize = 0;
    while i < 16
        invariant
            i <= 16,
            forall|j: int| 0 <= j < i ==> a.dst@[j] == b.dst@[j],
        decreases 16 - i,
    {
        if a.dst[i] != b.dst[i] {
            assert(a@.dst[i as int] != b@.dst[i as int]);
            return false;
        }
        i += 1;
    }
    assert(a@ =~= b@);
    true
}

/// Adds or deletes one route. Identity is every field of the route, so a duplicate is not stored
/// twice, and a route that replaces another lands on the entry it replaces.
pub fn store(table: &mut Vec<Route>, route: Route, adding: bool)
    ensures
        super::criterion::routes(final(table)@) == stored(
            super::criterion::routes(old(table)@),
            route@,
            adding,
        ),
{
    let ghost before = super::criterion::routes(table@);
    let mut at: usize = 0;
    while at < table.len() && !same_route(&table[at], &route)
        invariant
            at <= table@.len(),
            before == super::criterion::routes(table@),
            table@ == old(table)@,
            place_of(before, route@, 0) == place_of(before, route@, at as int),
        decreases table@.len() - at,
    {
        at += 1;
    }
    assert(at == place_of(before, route@, 0));
    if adding {
        if at == table.len() {
            table.push(route);
            assert(super::criterion::routes(table@) =~= before.push(route@));
        }
    } else if at < table.len() {
        table.swap_remove(at);
        assert(super::criterion::routes(table@) =~= before.update(
            at as int,
            before.last(),
        ).drop_last());
    }
}

/// Applies one route message to a table. `body` is the message without its header.
pub fn record(table: &mut Vec<Route>, body: &[u8], adding: bool, order: ByteOrder)
    requires
        body@.len() >= RTMSG_LEN,
    ensures
        super::criterion::routes(final(table)@) == recorded(
            super::criterion::routes(old(table)@),
            body@,
            adding,
            order,
        ),
{
    let family: Family = if body[0] == af_inet() {
        Family::V4
    } else if body[0] == af_inet6() {
        Family::V6
    } else {
        return ;
    };
    let kind: u8 = body[RTM_TYPE_OFFSET];
    let oif: Option<u32> = if RTN_NOWHERE_FIRST <= kind && kind <= RTN_NOWHERE_LAST {
        Some(0)
    } else {
        None
    };
    let mut route: Route = Route {
        family,
        dst_len: body[RTM_DST_LEN_OFFSET],
        dst: [0; 16],
        table: body[RTM_TABLE_OFFSET] as u32,
        oif,
    };
    let mut multipath: Option<(usize, usize)> = None;
    let end: usize = body.len();
    let mut at: usize = RTMSG_LEN;
    let ghost whole = all_noted(
        drafted(body@, family),
        crate::netlink::attributes(body@.skip(RTMSG_LEN as int), order),
        order,
    );
    proof {
        assert(route.dst@ =~= padded(Seq::empty()));
        assert(body@.skip(RTMSG_LEN as int) =~= body@.subrange(at as int, end as int));
        assert(draft_of(route, multipath, body@) == drafted(body@, family));
    }
    let mut going: bool = true;
    while going
        invariant
            at <= end == body@.len(),
            multipath matches Some(m) ==> m.0 <= m.1 <= body@.len(),
            going ==> whole == all_noted(
                draft_of(route, multipath, body@),
                crate::netlink::attributes(body@.subrange(at as int, end as int), order),
                order,
            ),
            !going ==> whole == draft_of(route, multipath, body@),
        decreases (if going {
            end - at + 1
        } else {
            0
        }),
    {
        match next_attribute(body, at, end, order) {
            None => {
                going = false;
            },
            Some(a) => {
                let ghost before = draft_of(route, multipath, body@);
                let ghost left = crate::netlink::attributes(
                    body@.subrange(at as int, end as int),
                    order,
                );
                let ghost payload = body@.subrange(a.from as int, a.to as int);
                let len: usize = a.to - a.from;
                if a.kind == RTA_OIF && len >= 4 {
                    assert(payload.subrange(0, 4) =~= body@.subrange(a.from as int, a.from + 4));
                    route.oif = Some(read_u32(body, a.from, order));
                } else if a.kind == RTA_TABLE && len >= 4 {
                    assert(payload.subrange(0, 4) =~= body@.subrange(a.from as int, a.from + 4));
                    route.table = read_u32(body, a.from, order);
                } else if a.kind == RTA_DST && len <= 16 {
                    route.dst = padded_prefix(body, a.from, a.to);
                } else if a.kind == RTA_MULTIPATH {
                    multipath = Some((a.from, a.to));
                }
                proof {
                    let head = crate::netlink::Attribute { kind: a.kind, payload };
                    assert(left[0] == head);
                    assert(left.drop_first() =~= crate::netlink::attributes(
                        body@.subrange(a.next as int, end as int),
                        order,
                    ));
                    assert(draft_of(route, multipath, body@) =~= noted(before, head, order));
                }
                at = a.next;
            },
        }
    }
    match multipath {
        Some((from, to)) => {
            let oifs: Vec<u32> = interfaces_of(body, from, to, order);
            let ghost before = super::criterion::routes(table@);
            let mut i: usize = 0;
            assert(oifs@.skip(0) =~= oifs@);
            while i < oifs.len()
                invariant
                    i <= oifs@.len(),
                    all_stored(before, route@, oifs@, adding) == all_stored(
                        super::criterion::routes(table@),
                        route@,
                        oifs@.skip(i as int),
                        adding,
                    ),
                decreases oifs@.len() - i,
            {
                let through: Route = Route {
                    family: route.family,
                    dst_len: route.dst_len,
                    dst: route.dst,
                    table: route.table,
                    oif: Some(oifs[i]),
                };
                assert(oifs@.skip(i as int)[0] == oifs@[i as int]);
                assert(oifs@.skip(i as int).drop_first() =~= oifs@.skip(i + 1));
                store(table, through, adding);
                i += 1;
            }
        },
        None => store(table, route, adding),
    }
}

/// What a route under construction says.
spec fn draft_of(route: Route, multipath: Option<(usize, usize)>, body: Seq<u8>) -> Draft {
    Draft {
        route: route@,
        multipath: match multipath {
            Some((from, to)) => Some(body.subrange(from as int, to as int)),
            None => None,
        },
    }
}

/// A run of at most sixteen bytes, zero-padded.
fn padded_prefix(bytes: &[u8], from: usize, to: usize) -> (prefix: [u8; 16])
    requires
        from <= to <= bytes@.len(),
        to - from <= 16,
    ensures
        prefix@ == padded(bytes@.subrange(from as int, to as int)),
{
    let mut prefix: [u8; 16] = [0; 16];
    let mut i: usize = 0;
    while i < to - from
        invariant
            from <= to <= bytes@.len(),
            i <= to - from <= 16,
            forall|j: int| 0 <= j < i ==> prefix@[j] == bytes@[from + j],
            forall|j: int| i <= j < 16 ==> prefix@[j] == 0,
        decreases to - from - i,
    {
        prefix[i] = bytes[from + i];
        i += 1;
    }
    assert(prefix@ =~= padded(bytes@.subrange(from as int, to as int)));
    prefix
}

/// The interfaces of the nexthops from `from` to `to`.
pub fn interfaces_of(bytes: &[u8], from: usize, to: usize, order: ByteOrder) -> (oifs: Vec<u32>)
    requires
        from <= to <= bytes@.len(),
    ensures
        oifs@ == interfaces(bytes@.subrange(from as int, to as int), order),
{
    let mut oifs: Vec<u32> = Vec::new();
    let mut at: usize = from;
    let ghost whole = interfaces(bytes@.subrange(from as int, to as int), order);
    assert(oifs@ + whole =~= whole);
    while to - at >= RTNEXTHOP_LEN
        invariant
            from <= at <= to <= bytes@.len(),
            whole == interfaces(bytes@.subrange(from as int, to as int), order),
            whole == oifs@ + interfaces(bytes@.subrange(at as int, to as int), order),
        decreases to - at,
    {
        let ghost run = bytes@.subrange(at as int, to as int);
        assert(run.subrange(0, 2) =~= bytes@.subrange(at as int, at + 2));
        assert(run.subrange(4, 8) =~= bytes@.subrange(at + 4, at + 8));
        let length: usize = read_u16(bytes, at, order) as usize;
        if length < RTNEXTHOP_LEN || length > to - at {
            assert(oifs@ + interfaces(run, order) =~= oifs@);
            return oifs;
        }
        let oif: u32 = read_u32(bytes, at + RTNH_IFINDEX_OFFSET, order);
        let next: usize = at + item_stride(length, to - at);
        proof {
            let rest = bytes@.subrange(next as int, to as int);
            assert(run.skip(crate::netlink::stride(length as int, run.len() as int)) =~= rest);
            assert(oifs@ + interfaces(run, order) =~= oifs@.push(oif) + interfaces(rest, order));
        }
        oifs.push(oif);
        at = next;
    }
    assert(oifs@ + interfaces(bytes@.subrange(at as int, to as int), order) =~= oifs@);
    oifs
}

/// Applies one datagram's worth of messages.
///
/// Stops at the first malformed header rather than guessing past it: a half-walked message reads
/// as an absent route, and an absent default route is the one wrong answer that arms the stage.
pub fn apply(table: &mut Vec<Route>, messages: &[u8], order: ByteOrder) -> (progress: Progress)
    ensures
        (super::criterion::routes(final(table)@), progress) == applied(
            super::criterion::routes(old(table)@),
            messages@,
            order,
        ),
{
    let end: usize = messages.len();
    let mut at: usize = 0;
    let ghost whole = applied(super::criterion::routes(table@), messages@, order);
    assert(messages@.skip(0) =~= messages@);
    while end - at >= NLMSG_HDR_LEN
        invariant
            at <= end == messages@.len(),
            whole == applied(super::criterion::routes(old(table)@), messages@, order),
            whole == applied(
                super::criterion::routes(table@),
                messages@.skip(at as int),
                order,
            ),
        decreases end - at,
    {
        let ghost run = messages@.skip(at as int);
        assert(run.subrange(0, 4) =~= messages@.subrange(at as int, at + 4));
        assert(run.subrange(4, 6) =~= messages@.subrange(at + 4, at + 6));
        let length: usize = read_u32(messages, at, order) as usize;
        let kind: u16 = read_u16(messages, at + 4, order);
        if length < NLMSG_HDR_LEN || length > end - at {
            return Progress::Done;
        }
        if kind == nlmsg_done() {
            return Progress::Done;
        }
        if kind == nlmsg_error() && length >= NLMSG_HDR_LEN + 4 {
            assert(run.subrange(16, 20) =~= messages@.subrange(at + 16, at + 20));
            let word: u32 = read_u32(messages, at + NLMSG_HDR_LEN, order);
            let code: i32 = as_signed(word);
            return if code == 0 {
                Progress::Done
            } else {
                Progress::Refused(code)
            };
        }
        let adding: bool = kind == rtm_newroute();
        if (adding || kind == rtm_delroute()) && length >= NLMSG_HDR_LEN + RTMSG_LEN {
            let body: &[u8] = slice_subrange(messages, at + NLMSG_HDR_LEN, at + length);
            assert(body@ =~= run.subrange(16, length as int));
            record(table, body, adding, order);
        }
        let next: usize = at + item_stride(length, end - at);
        assert(run.skip(crate::netlink::stride(length as int, run.len() as int))
            =~= messages@.skip(next as int));
        at = next;
    }
    Progress::More
}

/// A 32-bit word read as a signed number.
pub fn as_signed(word: u32) -> (number: i32)
    ensures
        number == signed(word as int),
{
    assert(word as i32 == (if word >= 0x8000_0000 { word - 0x1_0000_0000 } else { word as int }))
        by (bit_vector);
    word as i32
}

/// Whether no route occurs twice in a table.
pub open spec fn distinct(table: Seq<RouteView>) -> bool {
    forall|i: int, j: int| 0 <= i < j < table.len() ==> table[i] != table[j]
}

proof fn lemma_place_of(table: Seq<RouteView>, route: RouteView, from: int)
    requires
        0 <= from <= table.len(),
    ensures
        from <= place_of(table, route, from) <= table.len(),
        place_of(table, route, from) < table.len() ==> table[place_of(table, route, from)] == route,
        forall|i: int| from <= i < place_of(table, route, from) ==> table[i] != route,
    decreases table.len() - from,
{
    if from < table.len() && table[from] != route {
        lemma_place_of(table, route, from + 1);
    }
}

/// A table is a set of routes: adding one puts it in, deleting one takes it out, every other
/// route stays as it was, and none comes to be held twice.
pub proof fn a_table_is_a_set_of_routes(
    table: Seq<RouteView>,
    route: RouteView,
    adding: bool,
    other: RouteView,
)
    requires
        distinct(table),
    ensures
        distinct(stored(table, route, adding)),
        stored(table, route, adding).contains(route) == adding,
        other != route ==> stored(table, route, adding).contains(other) == table.contains(other),
{
    lemma_place_of(table, route, 0);
    let at = place_of(table, route, 0);
    let after = stored(table, route, adding);
    if adding {
        if at == table.len() {
            assert(after.last() == route);
            assert forall|i: int| 0 <= i < table.len() implies after[i] == table[i] by {}
            if table.contains(other) {
                let i = choose|i: int| 0 <= i < table.len() && table[i] == other;
                assert(after[i] == other);
            }
        } else {
            assert(after[at] == route);
        }
    } else if at < table.len() {
        let last = table.len() - 1;
        assert forall|i: int| 0 <= i < last implies after[i] == (if i == at {
            table[last]
        } else {
            table[i]
        }) by {}
        assert forall|i: int| 0 <= i < after.len() implies after[i] != route by {
            if i == at {
                assert(at < last);
                assert(table[at] != table[last]);
            } else if i > at {
                assert(table[at] != table[i]);
            }
        }
        if other != route && table.contains(other) {
            let i = choose|i: int| 0 <= i < table.len() && table[i] == other;
            if i == last {
                assert(after[at] == other);
            } else {
                assert(after[i] == other);
            }
        }
        if after.contains(other) {
            let i = choose|i: int| 0 <= i < after.len() && after[i] == other;
            if i == at {
                assert(table[last] == other);
            } else {
                assert(table[i] == other);
            }
        }
    }
}

/// A route that is added and then deleted leaves the table as it was.
pub proof fn a_deleted_route_leaves_the_table(table: Seq<RouteView>, route: RouteView)
    requires
        !table.contains(route),
    ensures
        stored(stored(table, route, true), route, false) == table,
{
    lemma_place_of(table, route, 0);
    let added = table.push(route);
    lemma_place_of(added, route, 0);
    assert(added.update(table.len() as int, added.last()).drop_last() =~= table);
    assert(place_of(added, route, 0) == table.len()) by {
        let at = place_of(added, route, 0);
        assert(added[table.len() as int] == route);
        if at < table.len() {
            assert(table[at] == route);
        }
    }
}

/// Adding a route that is already there changes nothing, so a replacement lands on the entry it
/// replaces.
pub proof fn a_route_is_not_stored_twice(table: Seq<RouteView>, route: RouteView)
    ensures
        stored(stored(table, route, true), route, true) == stored(table, route, true),
{
    lemma_place_of(table, route, 0);
    let added = stored(table, route, true);
    lemma_place_of(added, route, 0);
    if place_of(table, route, 0) == table.len() {
        assert(added[table.len() as int] == route);
    }
}

/// An equal-cost route is the several paths it is: adding it puts in one route for each of its
/// interfaces, deleting it takes each of them out, and no other route is touched.
pub proof fn an_equal_cost_route_expands_to_its_nexthops(
    table: Seq<RouteView>,
    route: RouteView,
    oifs: Seq<u32>,
    adding: bool,
    other: RouteView,
)
    requires
        distinct(table),
    ensures
        distinct(all_stored(table, route, oifs, adding)),
        ({
            let expanded = exists|i: int|
                0 <= i < oifs.len() && other == (RouteView {
                    oif: Some(#[trigger] oifs[i]),
                    ..route
                });
            all_stored(table, route, oifs, adding).contains(other) == (if expanded {
                adding
            } else {
                table.contains(other)
            })
        }),
    decreases oifs.len(),
{
    if oifs.len() > 0 {
        let first = RouteView { oif: Some(oifs[0]), ..route };
        let rest = oifs.drop_first();
        a_table_is_a_set_of_routes(table, first, adding, other);
        an_equal_cost_route_expands_to_its_nexthops(
            stored(table, first, adding),
            route,
            rest,
            adding,
            other,
        );
        assert(forall|i: int| 0 <= i < rest.len() ==> #[trigger] rest[i] == oifs[i + 1]);
        if exists|i: int|
            0 <= i < oifs.len() && other == (RouteView { oif: Some(#[trigger] oifs[i]), ..route }) {
            let i = choose|i: int|
                0 <= i < oifs.len() && other == (RouteView {
                    oif: Some(#[trigger] oifs[i]),
                    ..route
                });
            if i > 0 {
                assert(rest[i - 1] == oifs[i]);
            }
        }
    }
}

/// No datagram, malformed or not, makes a table hold a route twice.
pub proof fn a_datagram_keeps_the_routes_distinct(
    table: Seq<RouteView>,
    messages: Seq<u8>,
    order: ByteOrder,
)
    requires
        distinct(table),
    ensures
        distinct(applied(table, messages, order).0),
    decreases messages.len(),
{
    let length = crate::netlink::word32(messages, 0, order);
    let kind = crate::netlink::word16(messages, 4, order);
    if messages.len() < NLMSG_HDR_LEN || length < NLMSG_HDR_LEN || length > messages.len() || kind
        == 3 || (kind == 2 && length >= 20) {
    } else {
        let next = messages.skip(crate::netlink::stride(length, messages.len() as int));
        if (kind == 24 || kind == 25) && length >= 28 {
            let body = messages.subrange(16, length);
            lemma_recorded_distinct(table, body, kind == 24, order);
            a_datagram_keeps_the_routes_distinct(
                recorded(table, body, kind == 24, order),
                next,
                order,
            );
        } else {
            a_datagram_keeps_the_routes_distinct(table, next, order);
        }
    }
}

proof fn lemma_recorded_distinct(
    table: Seq<RouteView>,
    body: Seq<u8>,
    adding: bool,
    order: ByteOrder,
)
    requires
        distinct(table),
    ensures
        distinct(recorded(table, body, adding, order)),
{
    if let Some(family) = route_family(body[0]) {
        let draft = all_noted(
            drafted(body, family),
            crate::netlink::attributes(body.skip(RTMSG_LEN as int), order),
            order,
        );
        match draft.multipath {
            Some(nexthops) => an_equal_cost_route_expands_to_its_nexthops(
                table,
                draft.route,
                interfaces(nexthops, order),
                adding,
                draft.route,
            ),
            None => a_table_is_a_set_of_routes(table, draft.route, adding, draft.route),
        }
    }
}

/// A malformed header ends a datagram and leaves the table as it was.
pub proof fn a_malformed_header_applies_nothing(
    table: Seq<RouteView>,
    messages: Seq<u8>,
    order: ByteOrder,
)
    requires
        messages.len() >= NLMSG_HDR_LEN,
        crate::netlink::word32(messages, 0, order) < NLMSG_HDR_LEN || crate::netlink::word32(
            messages,
            0,
            order,
        ) > messages.len(),
    ensures
        applied(table, messages, order) == (table, Progress::Done),
{
}

/// The request for every route of both families.
pub open spec fn is_dump_request(bytes: Seq<u8>, order: ByteOrder) -> bool {
    &&& bytes.len() == NLMSG_HDR_LEN + RTMSG_LEN
    &&& crate::netlink::is_request(bytes, 26, 0x301, order)
    &&& forall|i: int| 16 <= i < 28 ==> #[trigger] bytes[i] == 0
}

/// The request for every route of both families.
pub fn dump_request(order: ByteOrder) -> (bytes: Vec<u8>)
    ensures
        is_dump_request(bytes@, order),
{
    let mut bytes: Vec<u8> = request_header(
        NLMSG_HDR_LEN + RTMSG_LEN,
        rtm_getroute(),
        nlm_f_request() + nlm_f_dump(),
        order,
    );
    let ghost head = bytes@;
    bytes.push(af_unspec());
    let mut i: usize = 1;
    while i < RTMSG_LEN
        invariant
            1 <= i <= RTMSG_LEN,
            head.len() == 16,
            bytes@.len() == 16 + i,
            bytes@.take(16) == head,
            forall|j: int| 16 <= j < bytes@.len() ==> #[trigger] bytes@[j] == 0,
        decreases RTMSG_LEN - i,
    {
        let ghost before = bytes@;
        bytes.push(0);
        assert(bytes@.take(16) =~= before.take(16));
        i += 1;
    }
    proof {
        crate::netlink::lemma_request_prefix(head, bytes@, 26, 0x301, order);
    }
    bytes
}

/// What a read of a dump leads to.
#[derive(Clone, Copy, PartialEq, Eq, Debug, Structural)]
pub enum DumpStep {
    /// Read again.
    Receive,
    /// The table is complete.
    Complete,
    /// The kernel refused the dump, with this code. A refused dump would otherwise read as a
    /// machine with no routes.
    Refused(i32),
}

/// What the end of a datagram leads to.
pub open spec fn dump_led(progress: Progress) -> DumpStep {
    match progress {
        Progress::More => DumpStep::Receive,
        Progress::Done => DumpStep::Complete,
        Progress::Refused(code) => DumpStep::Refused(code),
    }
}

/// A dump is complete only where the kernel said so, or the datagram broke off; a refused one is
/// refused, with the code, and is never taken for a machine without routes.
pub proof fn a_refused_dump_is_not_complete(progress: Progress, code: i32)
    ensures
        dump_led(progress) == DumpStep::Complete <==> progress == Progress::Done,
        dump_led(progress) == DumpStep::Refused(code) <==> progress == Progress::Refused(code),
        dump_led(progress) == DumpStep::Receive <==> progress == Progress::More,
{
}

/// Applies one datagram of a dump, and says what to do next.
pub fn dump_step(table: &mut Vec<Route>, datagram: &[u8], order: ByteOrder) -> (step: DumpStep)
    ensures
        super::criterion::routes(final(table)@) == applied(
            super::criterion::routes(old(table)@),
            datagram@,
            order,
        ).0,
        step == dump_led(applied(super::criterion::routes(old(table)@), datagram@, order).1),
        step == (match applied(super::criterion::routes(old(table)@), datagram@, order).1 {
            Progress::More => DumpStep::Receive,
            Progress::Done => DumpStep::Complete,
            Progress::Refused(code) => DumpStep::Refused(code),
        }),
{
    match apply(table, datagram, order) {
        Progress::More => DumpStep::Receive,
        Progress::Done => DumpStep::Complete,
        Progress::Refused(code) => DumpStep::Refused(code),
    }
}

/// The family byte of a message and the family of a route say the same: 2 is IPv4, 10 is IPv6.
pub open spec fn of_family(byte: u8, family: Family) -> bool {
    (byte == 2 && family == Family::V4) || (byte == 10 && family == Family::V6)
}

/// A message touches routes of the family it names and of the prefix length it states, and no
/// others: a route that a message of IPv6 adds or takes out is an IPv6 route, one of IPv4 an IPv4
/// route, and a message of any other family touches nothing. Adding takes nothing out, and
/// deleting puts nothing in.
pub proof fn a_message_touches_its_family_alone(
    table: Seq<RouteView>,
    body: Seq<u8>,
    adding: bool,
    order: ByteOrder,
    route: RouteView,
)
    ensures
        recorded(table, body, adding, order).contains(route) != table.contains(route) ==> of_family(
            body[0],
            route.family,
        ) && route.dst_len == body[1] && table.contains(route) == !adding,
        body[0] != 2 && body[0] != 10 ==> recorded(table, body, adding, order) == table,
{
    if let Some(family) = route_family(body[0]) {
        let attributes = crate::netlink::attributes(body.skip(RTMSG_LEN as int), order);
        let draft = all_noted(drafted(body, family), attributes, order);
        lemma_fixed_part(drafted(body, family), attributes, order);
        match draft.multipath {
            Some(nexthops) => lemma_all_stored_touches(
                table,
                draft.route,
                interfaces(nexthops, order),
                adding,
                route,
            ),
            None => lemma_stored_touches(table, draft.route, adding, route),
        }
    }
}

/// No attribute changes the family or the prefix length of a route.
proof fn lemma_fixed_part(draft: Draft, attributes: Seq<crate::netlink::Attribute>, order: ByteOrder)
    ensures
        all_noted(draft, attributes, order).route.family == draft.route.family,
        all_noted(draft, attributes, order).route.dst_len == draft.route.dst_len,
    decreases attributes.len(),
{
    if attributes.len() > 0 {
        lemma_fixed_part(noted(draft, attributes[0], order), attributes.drop_first(), order);
    }
}

proof fn lemma_stored_touches(
    table: Seq<RouteView>,
    route: RouteView,
    adding: bool,
    other: RouteView,
)
    ensures
        stored(table, route, adding).contains(other) != table.contains(other) ==> other == route
            && table.contains(other) == !adding,
{
    lemma_place_of(table, route, 0);
    let at = place_of(table, route, 0);
    let after = stored(table, route, adding);
    if table.contains(other) {
        let i = choose|i: int| 0 <= i < table.len() && table[i] == other;
        if adding {
            assert(after[i] == other);
        } else if at < table.len() && other != route {
            if i == table.len() - 1 {
                assert(after[at] == other);
            } else {
                assert(after[i] == other);
            }
        }
    }
    if after.contains(other) {
        let i = choose|i: int| 0 <= i < after.len() && after[i] == other;
        if adding {
            if i < table.len() {
                assert(table[i] == other);
            }
        } else if at < table.len() {
            if i == at {
                assert(table[table.len() - 1] == other);
            } else {
                assert(table[i] == other);
            }
        }
    }
}

proof fn lemma_all_stored_touches(
    table: Seq<RouteView>,
    route: RouteView,
    oifs: Seq<u32>,
    adding: bool,
    other: RouteView,
)
    ensures
        all_stored(table, route, oifs, adding).contains(other) != table.contains(other)
            ==> other.family == route.family && other.dst_len == route.dst_len && table.contains(
            other,
        ) == !adding,
    decreases oifs.len(),
{
    if oifs.len() > 0 {
        let first = RouteView { oif: Some(oifs[0]), ..route };
        lemma_stored_touches(table, first, adding, other);
        lemma_all_stored_touches(
            stored(table, first, adding),
            route,
            oifs.drop_first(),
            adding,
            other,
        );
    }
}

/// Whether attribute `k` is of a kind and has one of the sizes asked for.
pub open spec fn states(
    attributes: Seq<crate::netlink::Attribute>,
    k: int,
    kind: u16,
    least: int,
    most: int,
) -> bool {
    0 <= k < attributes.len() && attributes[k].kind == kind && least <= attributes[k].payload.len()
        <= most
}

/// Whether attribute `k` is the last of a kind that has one of the sizes asked for.
pub open spec fn states_last(
    attributes: Seq<crate::netlink::Attribute>,
    k: int,
    kind: u16,
    least: int,
    most: int,
) -> bool {
    states(attributes, k, kind, least, most) && forall|l: int|
        k < l ==> !#[trigger] states(attributes, l, kind, least, most)
}

/// Whether no attribute is of a kind and has one of the sizes asked for.
pub open spec fn states_none(
    attributes: Seq<crate::netlink::Attribute>,
    kind: u16,
    least: int,
    most: int,
) -> bool {
    forall|l: int| !#[trigger] states(attributes, l, kind, least, most)
}

/// More bytes than an attribute can have.
pub open spec fn any_size() -> int {
    0x1_0000_0000
}

/// Whether a route is the one a message is about, but for where it leaves: its family and prefix
/// length are those of the fixed part, its table is the last one an attribute of kind 15 states in
/// four bytes and else the byte of the fixed part, and its prefix is the last one of at most
/// sixteen bytes an attribute of kind 1 states, padded with zeros.
pub open spec fn is_about(
    body: Seq<u8>,
    attributes: Seq<crate::netlink::Attribute>,
    order: ByteOrder,
    route: RouteView,
) -> bool {
    &&& of_family(body[0], route.family)
    &&& route.dst_len == body[1]
    &&& states_none(attributes, 15, 4, any_size()) ==> route.table == body[4]
    &&& forall|k: int| #[trigger]
        states_last(attributes, k, 15, 4, any_size()) ==> route.table == crate::netlink::word32(
            attributes[k].payload,
            0,
            order,
        )
    &&& route.dst.len() == 16
    &&& forall|i: int|
        0 <= i < 16 && states_none(attributes, 1, 0, 16) ==> #[trigger] route.dst[i] == 0
    &&& forall|k: int, i: int|
        #![trigger states_last(attributes, k, 1, 0, 16), route.dst[i]]
        states_last(attributes, k, 1, 0, 16) && 0 <= i < 16 ==> route.dst[i] == (if i
            < attributes[k].payload.len() {
            attributes[k].payload[i]
        } else {
            0
        })
}

/// Whether a route leaves where a message without nexthops says: through the interface that the
/// last attribute of kind 4 states in four bytes, and else nowhere, which is interface zero, for
/// the types 6 to 9, and through one that is not stated for every other type.
pub open spec fn leaves_as_stated(
    body: Seq<u8>,
    attributes: Seq<crate::netlink::Attribute>,
    order: ByteOrder,
    route: RouteView,
) -> bool {
    &&& forall|k: int| #[trigger]
        states_last(attributes, k, 4, 4, any_size()) ==> route.oif is Some && route.oif->0
            == crate::netlink::word32(attributes[k].payload, 0, order)
    &&& states_none(attributes, 4, 4, any_size()) ==> route.oif == (if 6 <= body[7] <= 9 {
        Some(0u32)
    } else {
        None
    })
}

/// A message of one path. Where no attribute carries nexthops, the table comes to hold the route
/// that the message is about, or comes not to hold it, and every other route stays as it was.
pub proof fn a_message_of_one_path_is_one_route(
    table: Seq<RouteView>,
    body: Seq<u8>,
    adding: bool,
    order: ByteOrder,
    route: RouteView,
    other: RouteView,
)
    requires
        distinct(table),
        body.len() >= 12,
        ({
            let attributes = crate::netlink::attributes(body.skip(12), order);
            &&& forall|k: int| 0 <= k < attributes.len() ==> (#[trigger] attributes[k]).kind != 9
            &&& is_about(body, attributes, order, route)
            &&& leaves_as_stated(body, attributes, order, route)
        }),
    ensures
        recorded(table, body, adding, order).contains(route) == adding,
        other != route ==> recorded(table, body, adding, order).contains(other) == table.contains(
            other,
        ),
{
    let attributes = crate::netlink::attributes(body.skip(12), order);
    lemma_small_attributes(body.skip(12), order);
    let start = drafted(body, route.family);
    let draft = all_noted(start, attributes, order);
    lemma_fixed_part(start, attributes, order);
    lemma_last_statements(start, attributes, order);
    lemma_last_exists(attributes, 15, 4, any_size(), attributes.len() as int);
    lemma_last_exists(attributes, 1, 0, 16, attributes.len() as int);
    lemma_last_exists(attributes, 4, 4, any_size(), attributes.len() as int);
    assert(states_none(attributes, 9, 0, any_size()));
    lemma_prefix_padded(body, attributes, order, route, draft.route);
    assert(draft.route =~= route);
    a_table_is_a_set_of_routes(table, route, adding, other);
}

/// A message of several paths. The last attribute of kind 9 carries its nexthops, and the table
/// comes to hold, or not to hold, the route that the message is about through the interface of
/// each of them; every other route stays as it was.
pub proof fn a_message_of_several_paths_is_as_many_routes(
    table: Seq<RouteView>,
    body: Seq<u8>,
    adding: bool,
    order: ByteOrder,
    at: int,
    route: RouteView,
    other: RouteView,
)
    requires
        distinct(table),
        body.len() >= 12,
        ({
            let attributes = crate::netlink::attributes(body.skip(12), order);
            &&& states_last(attributes, at, 9, 0, any_size())
            &&& is_about(body, attributes, order, route)
        }),
    ensures
        ({
            let nexthops = crate::netlink::attributes(body.skip(12), order)[at].payload;
            let through = exists|i: int|
                0 <= i < interfaces(nexthops, order).len() && other == (RouteView {
                    oif: Some(#[trigger] interfaces(nexthops, order)[i]),
                    ..route
                });
            recorded(table, body, adding, order).contains(other) == (if through {
                adding
            } else {
                table.contains(other)
            })
        }),
{
    let attributes = crate::netlink::attributes(body.skip(12), order);
    lemma_small_attributes(body.skip(12), order);
    let start = drafted(body, route.family);
    let draft = all_noted(start, attributes, order);
    lemma_fixed_part(start, attributes, order);
    lemma_last_statements(start, attributes, order);
    lemma_last_exists(attributes, 15, 4, any_size(), attributes.len() as int);
    lemma_last_exists(attributes, 1, 0, 16, attributes.len() as int);
    lemma_prefix_padded(body, attributes, order, route, draft.route);
    let nexthops = attributes[at].payload;
    let oifs = interfaces(nexthops, order);
    an_equal_cost_route_expands_to_its_nexthops(table, draft.route, oifs, adding, other);
    assert forall|i: int| 0 <= i < oifs.len() implies (RouteView {
        oif: Some(#[trigger] oifs[i]),
        ..draft.route
    }) == (RouteView { oif: Some(oifs[i]), ..route }) by {
        assert((RouteView { oif: Some(oifs[i]), ..draft.route }) =~= (RouteView {
            oif: Some(oifs[i]),
            ..route
        }));
    }
}

/// Two prefixes that the same message states are the same prefix.
proof fn lemma_prefix_padded(
    body: Seq<u8>,
    attributes: Seq<crate::netlink::Attribute>,
    order: ByteOrder,
    route: RouteView,
    drafted: RouteView,
)
    requires
        is_about(body, attributes, order, route),
        states_none(attributes, 1, 0, 16) || exists|k: int| #[trigger]
            states_last(attributes, k, 1, 0, 16),
        states_none(attributes, 1, 0, 16) ==> drafted.dst == padded(Seq::empty()),
        forall|k: int| #[trigger]
            states_last(attributes, k, 1, 0, 16) ==> drafted.dst == padded(attributes[k].payload),
    ensures
        drafted.dst == route.dst,
{
    if states_none(attributes, 1, 0, 16) {
        assert(drafted.dst =~= route.dst);
    } else {
        let k = choose|k: int| #[trigger] states_last(attributes, k, 1, 0, 16);
        assert forall|i: int| 0 <= i < 16 implies drafted.dst[i] == #[trigger] route.dst[i] by {}
        assert(drafted.dst =~= route.dst);
    }
}

/// No attribute is larger than the sixteen bits of its length.
proof fn lemma_small_attributes(buffer: Seq<u8>, order: ByteOrder)
    ensures
        forall|k: int|
            0 <= k < crate::netlink::attributes(buffer, order).len() ==> (
            #[trigger] crate::netlink::attributes(buffer, order)[k]).payload.len() <= 0xffff,
    decreases buffer.len(),
{
    let length = crate::netlink::word16(buffer, 0, order);
    if buffer.len() < 4 || length < 4 || length > buffer.len() {
    } else {
        crate::bytes::lemma_little_endian_fits(buffer.subrange(0, 2));
        crate::bytes::lemma_big_endian_fits(buffer.subrange(0, 2));
        let behind = buffer.skip(crate::netlink::stride(length, buffer.len() as int));
        lemma_small_attributes(behind, order);
        let all = crate::netlink::attributes(buffer, order);
        assert forall|k: int| 0 <= k < all.len() implies (#[trigger] all[k]).payload.len()
            <= 0xffff by {
            if k > 0 {
                assert(all[k] == crate::netlink::attributes(behind, order)[k - 1]);
            }
        }
    }
}

/// Where an attribute states something, one is the last to.
proof fn lemma_last_exists(
    attributes: Seq<crate::netlink::Attribute>,
    kind: u16,
    least: int,
    most: int,
    end: int,
)
    requires
        0 <= end <= attributes.len(),
        forall|l: int| end <= l ==> !#[trigger] states(attributes, l, kind, least, most),
    ensures
        states_none(attributes, kind, least, most) || exists|k: int| #[trigger]
            states_last(attributes, k, kind, least, most),
    decreases end,
{
    if end > 0 {
        if states(attributes, end - 1, kind, least, most) {
            assert(states_last(attributes, end - 1, kind, least, most));
        } else {
            lemma_last_exists(attributes, kind, least, most, end - 1);
        }
    }
}

/// What a draft holds is what was stated last.
proof fn lemma_last_statements(
    draft: Draft,
    attributes: Seq<crate::netlink::Attribute>,
    order: ByteOrder,
)
    requires
        forall|k: int|
            0 <= k < attributes.len() ==> (#[trigger] attributes[k]).payload.len() <= 0xffff,
    ensures
        ({
            let done = all_noted(draft, attributes, order);
            &&& forall|k: int| #[trigger]
                states_last(attributes, k, 4, 4, any_size()) ==> done.route.oif is Some
                    && done.route.oif->0 == crate::netlink::word32(attributes[k].payload, 0, order)
            &&& states_none(attributes, 4, 4, any_size()) ==> done.route.oif == draft.route.oif
            &&& forall|k: int| #[trigger]
                states_last(attributes, k, 15, 4, any_size()) ==> done.route.table
                    == crate::netlink::word32(attributes[k].payload, 0, order)
            &&& states_none(attributes, 15, 4, any_size()) ==> done.route.table == draft.route.table
            &&& forall|k: int| #[trigger]
                states_last(attributes, k, 1, 0, 16) ==> done.route.dst == padded(
                    attributes[k].payload,
                )
            &&& states_none(attributes, 1, 0, 16) ==> done.route.dst == draft.route.dst
            &&& forall|k: int| #[trigger]
                states_last(attributes, k, 9, 0, any_size()) ==> done.multipath == Some(
                    attributes[k].payload,
                )
            &&& states_none(attributes, 9, 0, any_size()) ==> done.multipath == draft.multipath
        }),
    decreases attributes.len(),
{
    if attributes.len() > 0 {
        let head = attributes[0];
        let rest = attributes.drop_first();
        let next = noted(draft, head, order);
        assert forall|k: int| 0 <= k < rest.len() implies (#[trigger] rest[k]).payload.len()
            <= 0xffff by {
            assert(rest[k] == attributes[k + 1]);
        }
        lemma_last_statements(next, rest, order);
        lemma_statements_behind(attributes, 4, 4, any_size());
        lemma_statements_behind(attributes, 15, 4, any_size());
        lemma_statements_behind(attributes, 1, 0, 16);
        lemma_statements_behind(attributes, 9, 0, any_size());
        let word = crate::netlink::word32(head.payload, 0, order);
        crate::bytes::lemma_little_endian_fits(head.payload.subrange(0, 4));
        crate::bytes::lemma_big_endian_fits(head.payload.subrange(0, 4));
        assert(head.payload.len() >= 4 ==> word as u32 == word);
    }
}

/// What is stated last of attributes is stated last of those behind the first, or by the first
/// where none of those states it.
pub(crate) proof fn lemma_statements_behind(
    attributes: Seq<crate::netlink::Attribute>,
    kind: u16,
    least: int,
    most: int,
)
    requires
        attributes.len() > 0,
    ensures
        forall|k: int| #[trigger]
            states_last(attributes, k, kind, least, most) ==> k == 0 || states_last(
                attributes.drop_first(),
                k - 1,
                kind,
                least,
                most,
            ),
        states_last(attributes, 0, kind, least, most) ==> states_none(
            attributes.drop_first(),
            kind,
            least,
            most,
        ),
        states_none(attributes, kind, least, most) ==> states_none(
            attributes.drop_first(),
            kind,
            least,
            most,
        ) && !states(attributes, 0, kind, least, most),
{
    let rest = attributes.drop_first();
    assert forall|l: int| #[trigger]
        states(rest, l, kind, least, most) implies states(attributes, l + 1, kind, least, most) by {}
    assert forall|k: int| #[trigger] states_last(attributes, k, kind, least, most) && k != 0 implies
        states_last(rest, k - 1, kind, least, most) by {
        assert(states(attributes, k, kind, least, most));
        assert forall|l: int| k - 1 < l implies !#[trigger] states(rest, l, kind, least, most) by {
            if states(rest, l, kind, least, most) {
                assert(states(attributes, l + 1, kind, least, most));
            }
        }
    }
}

/// A nexthop is read at its interface and the walk goes on behind it: one that states its own
/// length, padded to four bytes, in front of anything, is the number in its bytes 4 to 8, followed
/// by the interfaces of what is behind it.
pub proof fn a_nexthop_is_read_at_its_interface(hop: Seq<u8>, rest: Seq<u8>, order: ByteOrder)
    requires
        hop.len() % 4 == 0,
        8 <= crate::netlink::word16(hop, 0, order) <= hop.len() < crate::netlink::word16(
            hop,
            0,
            order,
        ) + 4,
    ensures
        interfaces(hop + rest, order).len() == interfaces(rest, order).len() + 1,
        interfaces(hop + rest, order)[0] == crate::netlink::word32(hop, 4, order),
        interfaces(hop + rest, order).skip(1) == interfaces(rest, order),
{
    let run = hop + rest;
    let length = crate::netlink::word16(hop, 0, order);
    assert(run.subrange(0, 2) =~= hop.subrange(0, 2));
    assert(run.subrange(4, 8) =~= hop.subrange(4, 8));
    assert(crate::netlink::stride(length, run.len() as int) == hop.len());
    assert(run.skip(hop.len() as int) =~= rest);
    crate::bytes::lemma_little_endian_fits(hop.subrange(4, 8));
    crate::bytes::lemma_big_endian_fits(hop.subrange(4, 8));
    assert(interfaces(run, order).skip(1) =~= interfaces(rest, order));
}

/// The walk over nexthops ends at one that is short, or that states a length shorter than its
/// fixed part or past the end.
pub proof fn the_walk_ends_at_a_malformed_nexthop(nexthops: Seq<u8>, order: ByteOrder)
    requires
        nexthops.len() < 8 || crate::netlink::word16(nexthops, 0, order) < 8
            || crate::netlink::word16(nexthops, 0, order) > nexthops.len(),
    ensures
        interfaces(nexthops, order).len() == 0,
{
}

/// A datagram is applied message by message. A message that states its length, padded to four
/// bytes, in front of anything: one of kind 24 adds its route and one of kind 25 deletes it, where
/// it has room for the fixed part, and the rest is applied to what they leave; one of kind 3 ends
/// the dump; and any other kind is passed over, but for an error that has room for its code.
pub proof fn a_datagram_is_applied_message_by_message(
    table: Seq<RouteView>,
    message: Seq<u8>,
    rest: Seq<u8>,
    order: ByteOrder,
)
    requires
        message.len() % 4 == 0,
        16 <= crate::netlink::word32(message, 0, order) <= message.len() < crate::netlink::word32(
            message,
            0,
            order,
        ) + 4,
    ensures
        ({
            let length = crate::netlink::word32(message, 0, order);
            let kind = crate::netlink::word16(message, 4, order);
            let body = message.subrange(16, length);
            let all = applied(table, message + rest, order);
            &&& kind == 24 && length >= 28 ==> all == applied(
                recorded(table, body, true, order),
                rest,
                order,
            )
            &&& kind == 25 && length >= 28 ==> all == applied(
                recorded(table, body, false, order),
                rest,
                order,
            )
            &&& (kind == 24 || kind == 25) && length < 28 ==> all == applied(table, rest, order)
            &&& kind == 3 ==> all == (table, Progress::Done)
            &&& kind == 2 && length < 20 ==> all == applied(table, rest, order)
            &&& kind != 2 && kind != 3 && kind != 24 && kind != 25 ==> all == applied(
                table,
                rest,
                order,
            )
        }),
{
    let run = message + rest;
    let length = crate::netlink::word32(message, 0, order);
    assert(run.subrange(0, 4) =~= message.subrange(0, 4));
    assert(run.subrange(4, 6) =~= message.subrange(4, 6));
    assert(run.subrange(16, length) =~= message.subrange(16, length));
    assert(crate::netlink::stride(length, run.len() as int) == message.len());
    assert(run.skip(message.len() as int) =~= rest);
}

/// An error ends a datagram, whatever is behind it. An error of zero is an acknowledgement, and
/// any other is a refusal that carries the code as the kernel means it: negative.
pub proof fn a_refusal_carries_its_code(
    table: Seq<RouteView>,
    messages: Seq<u8>,
    order: ByteOrder,
    code: int,
)
    requires
        20 <= crate::netlink::word32(messages, 0, order) <= messages.len(),
        crate::netlink::word16(messages, 4, order) == 2,
        -0x8000_0000 <= code < 0x8000_0000,
        crate::netlink::word32(messages, 16, order) == code || crate::netlink::word32(
            messages,
            16,
            order,
        ) == code + 0x1_0000_0000,
    ensures
        applied(table, messages, order).0 == table,
        code == 0 ==> applied(table, messages, order).1 == Progress::Done,
        code != 0 ==> applied(table, messages, order).1 == Progress::Refused(code as i32),
{
    crate::bytes::lemma_little_endian_fits(messages.subrange(16, 20));
    crate::bytes::lemma_big_endian_fits(messages.subrange(16, 20));
}

/// A datagram that ends where a message would begin has more to follow.
pub proof fn a_datagram_without_an_end_has_more(
    table: Seq<RouteView>,
    messages: Seq<u8>,
    order: ByteOrder,
)
    requires
        messages.len() < 16,
    ensures
        applied(table, messages, order) == (table, Progress::More),
{
}

/// A message of one family leaves every route of the other as it was.
pub proof fn a_route_message_leaves_the_other_family(
    table: Seq<RouteView>,
    body: Seq<u8>,
    adding: bool,
    order: ByteOrder,
    route: RouteView,
)
    requires
        (body[0] == 2 && route.family == Family::V6) || (body[0] == 10 && route.family
            == Family::V4),
    ensures
        recorded(table, body, adding, order).contains(route) == table.contains(route),
{
    a_message_touches_its_family_alone(table, body, adding, order, route);
}

/// Where the kernel reads the request for the routes: 28 bytes that state their length, of kind
/// 26, with the flag of a request and the two that ask for a whole table, and no family in
/// particular.
pub proof fn the_request_asks_for_every_route(bytes: Seq<u8>, order: ByteOrder)
    requires
        is_dump_request(bytes, order),
    ensures
        bytes.len() == 28,
        crate::bytes::number(bytes.subrange(0, 4), order) == 28,
        crate::bytes::number(bytes.subrange(4, 6), order) == 26,
        crate::bytes::number(bytes.subrange(6, 8), order) == 0x301,
        crate::bytes::number(bytes.subrange(8, 12), order) == 1,
        crate::bytes::number(bytes.subrange(12, 16), order) == 0,
        bytes[16] == 0,
{
}

} // verus!
