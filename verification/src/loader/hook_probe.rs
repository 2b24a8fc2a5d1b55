//! Who holds the XDP hook of an interface, and in which mode.
//!
//! The kernel only tells this over netlink, in the answer to an `RTM_GETLINK`.

use vstd::prelude::*;
use vstd::string::*;

use crate::bytes::{push_number, read_u16, read_u32, ByteOrder};
use crate::fib::netlink::as_signed;
use crate::netlink::{next_attribute, request_header, NLMSG_HDR_LEN};
use crate::text::{push_decimal, push_hexadecimal, quoted};
use crate::uapi::{
    af_unspec, ifla_xdp, nlm_f_request, nlmsg_error, rtm_getlink, rtm_newlink,
};

verus! {

/// Attributes nested inside `IFLA_XDP`: the attach mode, and the program id.
pub const IFLA_XDP_ATTACHED: u16 = 2;

pub const IFLA_XDP_PROG_ID: u16 = 4;

/// Bytes of an `ifinfomsg`: `ifi_family`, a pad byte, `ifi_type`, `ifi_index`, `ifi_flags`,
/// `ifi_change`.
pub const IFINFOMSG_LEN: usize = 16;

/// How a program sits on the hook. Generic mode runs after the stack has built an skb, so a drop
/// there costs most of what it was supposed to save.
#[derive(Clone, Copy, PartialEq, Eq, Debug, Structural)]
pub enum AttachMode {
    /// Nothing is attached.
    Free,
    Native,
    Generic,
    Hardware,
    /// More than one mode occupied at once, which the kernel reports without saying which is
    /// which.
    Multiple,
    Unknown(u8),
}

impl AttachMode {
    /// The mode a byte of the kernel stands for.
    pub open spec fn of(raw: u8) -> AttachMode {
        match raw {
            0 => AttachMode::Free,
            1 => AttachMode::Native,
            2 => AttachMode::Generic,
            3 => AttachMode::Hardware,
            4 => AttachMode::Multiple,
            _ => AttachMode::Unknown(raw),
        }
    }

    /// The mode a byte of the kernel stands for.
    pub fn from_kernel(raw: u8) -> (mode: Self)
        ensures
            mode == Self::of(raw),
    {
        match raw {
            0 => Self::Free,
            1 => Self::Native,
            2 => Self::Generic,
            3 => Self::Hardware,
            4 => Self::Multiple,
            other => Self::Unknown(other),
        }
    }

    /// The name of a mode.
    pub open spec fn label(self) -> Seq<char> {
        match self {
            AttachMode::Free => "none"@,
            AttachMode::Native => "native"@,
            AttachMode::Generic => "generic"@,
            AttachMode::Hardware => "hardware offload"@,
            AttachMode::Multiple => "several modes at once"@,
            AttachMode::Unknown(raw) => "mode "@ + crate::text::decimal(raw as nat)
                + " this build does not know"@,
        }
    }

    /// The name of a mode.
    pub fn describe(self) -> (text: String)
        ensures
            text@ == self.label(),
    {
        match self {
            Self::Free => "none".to_owned(),
            Self::Native => "native".to_owned(),
            Self::Generic => "generic".to_owned(),
            Self::Hardware => "hardware offload".to_owned(),
            Self::Multiple => "several modes at once".to_owned(),
            Self::Unknown(raw) => {
                let mut text: String = "mode ".to_owned();
                push_decimal(&mut text, raw as u64);
                text.append(" this build does not know");
                text
            },
        }
    }
}

/// What the hook of an interface currently holds.
#[derive(Clone, Copy, PartialEq, Eq, Debug, Structural)]
pub struct HookState {
    pub prog_id: Option<u32>,
    pub mode: AttachMode,
}

/// The program in the way, named the three ways an operator can act on.
#[derive(Clone, Debug)]
pub struct Occupant {
    pub prog_id: u32,
    pub name: String,
    pub tag: u64,
    pub mode: AttachMode,
}

impl Occupant {
    /// What an operator is told of an occupant.
    pub open spec fn sentence(self) -> Seq<char> {
        "program id "@ + crate::text::decimal(self.prog_id as nat) + " named "@
            + crate::text::debug_text(self.name@) + ", tag "@ + crate::text::hexadecimal(
            self.tag as nat,
            16,
        ) + ", attached in "@ + self.mode.label() + " mode"@
    }

    /// What an operator is told of an occupant.
    pub fn describe(&self) -> (text: String)
        ensures
            text@ == self.sentence(),
    {
        let mut text: String = "program id ".to_owned();
        push_decimal(&mut text, self.prog_id as u64);
        text.append(" named ");
        let name: String = quoted(self.name.as_str());
        text.append(name.as_str());
        text.append(", tag ");
        push_hexadecimal(&mut text, self.tag, 16);
        text.append(", attached in ");
        let mode: String = self.mode.describe();
        text.append(mode.as_str());
        text.append(" mode");
        text
    }
}

/// Why an answer of the kernel says nothing of a hook.
#[derive(Clone, Copy, PartialEq, Eq, Debug, Structural)]
pub enum ProbeError {
    /// The answer is shorter than its own header.
    Short,
    /// The answer claims more bytes than it carries.
    Truncated { claimed: u32, carried: usize },
    /// The kernel refused, with this error number.
    Refused(i32),
    /// The answer is a message of another kind.
    NotALink(u16),
}

impl ProbeError {
    /// What is wrong with an answer, where it is the answer that is wrong.
    pub open spec fn sentence(self) -> Seq<char> {
        match self {
            ProbeError::Short => "the netlink answer is shorter than its own header"@,
            ProbeError::Truncated { claimed, carried } => "the netlink answer claims "@
                + crate::text::decimal(claimed as nat) + " bytes and carries "@
                + crate::text::decimal(carried as nat),
            ProbeError::Refused(_) => "the kernel refused the query"@,
            ProbeError::NotALink(kind) => "expected RTM_NEWLINK from the kernel, got message type "@
                + crate::text::decimal(kind as nat),
        }
    }

    /// What is wrong with an answer, where it is the answer that is wrong.
    pub fn describe(self) -> (text: String)
        ensures
            text@ == self.sentence(),
    {
        match self {
            Self::Short => "the netlink answer is shorter than its own header".to_owned(),
            Self::Truncated { claimed, carried } => {
                let mut text: String = "the netlink answer claims ".to_owned();
                push_decimal(&mut text, claimed as u64);
                text.append(" bytes and carries ");
                push_decimal(&mut text, carried as u64);
                text
            },
            Self::Refused(_) => "the kernel refused the query".to_owned(),
            Self::NotALink(kind) => {
                let mut text: String =
                    "expected RTM_NEWLINK from the kernel, got message type ".to_owned();
                push_decimal(&mut text, kind as u64);
                text
            },
        }
    }
}

/// What one nested attribute adds to what is known of a hook. The kernel reports a zero id for a
/// hook it considers free.
pub open spec fn hooked(
    state: HookState,
    a: crate::netlink::Attribute,
    order: ByteOrder,
) -> HookState {
    if a.kind == IFLA_XDP_ATTACHED && a.payload.len() >= 1 {
        HookState { mode: AttachMode::of(a.payload[0]), ..state }
    } else if a.kind == IFLA_XDP_PROG_ID && a.payload.len() >= 4 {
        let id = crate::netlink::word32(a.payload, 0, order) as u32;
        HookState {
            prog_id: if id != 0 {
                Some(id)
            } else {
                None
            },
            ..state
        }
    } else {
        state
    }
}

/// What all nested attributes add, in their order.
pub open spec fn all_hooked(
    state: HookState,
    attributes: Seq<crate::netlink::Attribute>,
    order: ByteOrder,
) -> HookState
    decreases attributes.len(),
{
    if attributes.len() == 0 {
        state
    } else {
        all_hooked(hooked(state, attributes[0], order), attributes.drop_first(), order)
    }
}

/// What the attributes of a link add: those that nest what the hook holds.
pub open spec fn link_hooked(
    state: HookState,
    attributes: Seq<crate::netlink::Attribute>,
    order: ByteOrder,
) -> HookState
    decreases attributes.len(),
{
    if attributes.len() == 0 {
        state
    } else {
        let a = attributes[0];
        let next = if a.kind == 43 {
            all_hooked(state, crate::netlink::attributes(a.payload, order), order)
        } else {
            state
        };
        link_hooked(next, attributes.drop_first(), order)
    }
}

/// What an answer of the kernel says of a hook.
pub open spec fn parsed(reply: Seq<u8>, order: ByteOrder) -> Result<HookState, ProbeError> {
    let length = crate::netlink::word32(reply, 0, order);
    let kind = crate::netlink::word16(reply, 4, order);
    let code = crate::fib::netlink::signed(crate::netlink::word32(reply, 16, order));
    if reply.len() < NLMSG_HDR_LEN {
        Err(ProbeError::Short)
    } else if length > reply.len() {
        Err(ProbeError::Truncated { claimed: length as u32, carried: reply.len() as usize })
    } else if kind == 2 {
        Err(ProbeError::Refused((-code) as i32))
    } else if kind != 16 {
        Err(ProbeError::NotALink(kind as u16))
    } else {
        Ok(
            link_hooked(
                HookState { prog_id: None, mode: AttachMode::Free },
                crate::netlink::attributes(reply.subrange(32, length), order),
                order,
            ),
        )
    }
}

/// Whether the body of an answer is there: a whole answer that reports an error carries its code,
/// which can be negated, and one that describes a link carries its fixed part.
pub open spec fn body_is_there(reply: Seq<u8>, order: ByteOrder) -> bool {
    let length = crate::netlink::word32(reply, 0, order);
    let kind = crate::netlink::word16(reply, 4, order);
    let code = crate::fib::netlink::signed(crate::netlink::word32(reply, 16, order));
    reply.len() >= NLMSG_HDR_LEN && length <= reply.len() ==> {
        &&& kind == 2 ==> reply.len() >= 20 && code > i32::MIN
        &&& kind == 16 ==> length >= 32
    }
}

/// Whether the body of an answer is there, so that it can be parsed.
pub fn has_body(reply: &[u8], order: ByteOrder) -> (there: bool)
    ensures
        there == body_is_there(reply@, order),
{
    if reply.len() < NLMSG_HDR_LEN {
        return true;
    }
    let length: u32 = read_u32(reply, 0, order);
    let kind: u16 = read_u16(reply, 4, order);
    if length as usize > reply.len() {
        return true;
    }
    if kind == nlmsg_error() {
        if reply.len() < NLMSG_HDR_LEN + 4 {
            return false;
        }
        return as_signed(read_u32(reply, NLMSG_HDR_LEN, order)) != i32::MIN;
    }
    if kind == rtm_newlink() {
        return length as usize >= NLMSG_HDR_LEN + IFINFOMSG_LEN;
    }
    true
}

/// Reads an answer of the kernel to a query for one link.
pub fn parse(reply: &[u8], order: ByteOrder) -> (state: Result<HookState, ProbeError>)
    requires
        body_is_there(reply@, order),
    ensures
        state == parsed(reply@, order),
{
    if reply.len() < NLMSG_HDR_LEN {
        return Err(ProbeError::Short);
    }
    let length: u32 = read_u32(reply, 0, order);
    let kind: u16 = read_u16(reply, 4, order);
    let end: usize = length as usize;
    if end > reply.len() {
        return Err(ProbeError::Truncated { claimed: length, carried: reply.len() });
    }
    if kind == nlmsg_error() {
        // The error code sits right after the header, negated.
        let code: i32 = as_signed(read_u32(reply, NLMSG_HDR_LEN, order));
        return Err(ProbeError::Refused(-code));
    }
    if kind != rtm_newlink() {
        return Err(ProbeError::NotALink(kind));
    }
    let mut state: HookState = HookState { prog_id: None, mode: AttachMode::Free };
    let mut at: usize = NLMSG_HDR_LEN + IFINFOMSG_LEN;
    let ghost start = state;
    let ghost whole = crate::netlink::attributes(reply@.subrange(32, end as int), order);
    let mut going: bool = true;
    while going
        invariant
            at <= end <= reply@.len(),
            whole == crate::netlink::attributes(reply@.subrange(32, end as int), order),
            going ==> link_hooked(start, whole, order) == link_hooked(
                state,
                crate::netlink::attributes(reply@.subrange(at as int, end as int), order),
                order,
            ),
            !going ==> link_hooked(start, whole, order) == state,
        decreases (if going {
            end - at + 1
        } else {
            0
        }),
    {
        match next_attribute(reply, at, end, order) {
            None => {
                going = false;
            },
            Some(a) => {
                let ghost left = crate::netlink::attributes(
                    reply@.subrange(at as int, end as int),
                    order,
                );
                assert(left.drop_first() =~= crate::netlink::attributes(
                    reply@.subrange(a.next as int, end as int),
                    order,
                ));
                if a.kind == ifla_xdp() {
                    state = parse_nested(reply, a.from, a.to, state, order);
                }
                at = a.next;
            },
        }
    }
    Ok(state)
}

/// Reads the attributes nested from `from` to `to`.
fn parse_nested(
    reply: &[u8],
    from: usize,
    to: usize,
    state: HookState,
    order: ByteOrder,
) -> (known: HookState)
    requires
        from <= to <= reply@.len(),
    ensures
        known == all_hooked(
            state,
            crate::netlink::attributes(reply@.subrange(from as int, to as int), order),
            order,
        ),
{
    let mut known: HookState = state;
    let mut at: usize = from;
    let ghost whole = crate::netlink::attributes(reply@.subrange(from as int, to as int), order);
    let mut going: bool = true;
    while going
        invariant
            at <= to <= reply@.len(),
            whole == crate::netlink::attributes(reply@.subrange(from as int, to as int), order),
            going ==> all_hooked(state, whole, order) == all_hooked(
                known,
                crate::netlink::attributes(reply@.subrange(at as int, to as int), order),
                order,
            ),
            !going ==> all_hooked(state, whole, order) == known,
        decreases (if going {
            to - at + 1
        } else {
            0
        }),
    {
        match next_attribute(reply, at, to, order) {
            None => {
                going = false;
            },
            Some(a) => {
                let ghost left = crate::netlink::attributes(
                    reply@.subrange(at as int, to as int),
                    order,
                );
                let ghost payload = reply@.subrange(a.from as int, a.to as int);
                assert(left.drop_first() =~= crate::netlink::attributes(
                    reply@.subrange(a.next as int, to as int),
                    order,
                ));
                let len: usize = a.to - a.from;
                if a.kind == IFLA_XDP_ATTACHED && len >= 1 {
                    known.mode = AttachMode::from_kernel(reply[a.from]);
                } else if a.kind == IFLA_XDP_PROG_ID && len >= 4 {
                    assert(payload.subrange(0, 4) =~= reply@.subrange(a.from as int, a.from + 4));
                    let id: u32 = read_u32(reply, a.from, order);
                    known.prog_id = if id != 0 {
                        Some(id)
                    } else {
                        None
                    };
                }
                at = a.next;
            },
        }
    }
    known
}

/// The request for one link: its index at byte 20, and zeros around it.
pub open spec fn is_link_request(bytes: Seq<u8>, index: u32, order: ByteOrder) -> bool {
    &&& bytes.len() == NLMSG_HDR_LEN + IFINFOMSG_LEN
    &&& crate::netlink::is_request(bytes, 18, 1, order)
    &&& bytes.subrange(16, 20) == seq![0u8, 0, 0, 0]
    &&& crate::netlink::word32(bytes, 20, order) == index
    &&& bytes.subrange(24, 32) == seq![0u8, 0, 0, 0, 0, 0, 0, 0]
}

/// The request for one link.
pub fn link_request(index: u32, order: ByteOrder) -> (bytes: Vec<u8>)
    ensures
        is_link_request(bytes@, index, order),
{
    let mut bytes: Vec<u8> = request_header(
        NLMSG_HDR_LEN + IFINFOMSG_LEN,
        rtm_getlink(),
        nlm_f_request(),
        order,
    );
    let ghost head = bytes@;
    bytes.push(af_unspec());
    bytes.push(0);
    bytes.push(0);
    bytes.push(0);
    let ghost typed = bytes@;
    push_number(&mut bytes, index as u64, 4, order);
    let ghost indexed = bytes@;
    bytes.push(0);
    bytes.push(0);
    bytes.push(0);
    bytes.push(0);
    bytes.push(0);
    bytes.push(0);
    bytes.push(0);
    bytes.push(0);
    proof {
        assert(typed.take(16) =~= head);
        assert(typed.skip(16) =~= seq![0u8, 0, 0, 0]);
        assert(indexed.take(20) == typed);
        assert(bytes@.take(24) =~= indexed);
        assert(bytes@.take(20) =~= typed);
        assert(bytes@.take(16) =~= head);
        assert(bytes@.subrange(16, 20) =~= typed.skip(16));
        assert(bytes@.subrange(20, 24) =~= indexed.skip(20));
        assert(bytes@.subrange(24, 32) =~= seq![0u8, 0, 0, 0, 0, 0, 0, 0]);
        crate::netlink::lemma_request_prefix(head, bytes@, 18, 1, order);
    }
    bytes
}

/// A program the kernel has loaded, as far as an occupant is named by it.
#[derive(Clone, Debug)]
pub struct LoadedProgram {
    pub id: u32,
    pub name: Option<String>,
    pub tag: u64,
}

/// The first loaded program with an id, from `from` on; the length where there is none.
pub open spec fn program_of(loaded: Seq<LoadedProgram>, id: u32, from: int) -> int
    decreases loaded.len() - from,
{
    if from >= loaded.len() {
        loaded.len() as int
    } else if loaded[from].id == id {
        from
    } else {
        program_of(loaded, id, from + 1)
    }
}

/// The name of a program, as far as the kernel gives one.
pub open spec fn program_name(loaded: Seq<LoadedProgram>, id: u32) -> Seq<char> {
    let at = program_of(loaded, id, 0);
    if at < loaded.len() {
        match loaded[at].name {
            Some(name) => name@,
            None => "<unnamed>"@,
        }
    } else {
        "<unnamed>"@
    }
}

/// The tag of a program, or zero where the kernel does not list it.
pub open spec fn program_tag(loaded: Seq<LoadedProgram>, id: u32) -> u64 {
    let at = program_of(loaded, id, 0);
    if at < loaded.len() {
        loaded[at].tag
    } else {
        0
    }
}

/// Whether an occupant is what a hook holds, named by what the kernel lists.
pub open spec fn occupies(
    occupant: Option<Occupant>,
    state: HookState,
    loaded: Seq<LoadedProgram>,
) -> bool {
    match state.prog_id {
        None => occupant is None,
        Some(id) => occupant matches Some(o) && o.prog_id == id && o.name@ == program_name(loaded, id)
            && o.tag == program_tag(loaded, id) && o.mode == state.mode,
    }
}

/// A hook that is held has an occupant, listed or not, with the id and the mode that the kernel
/// reported for the hook; a free one has none, whatever is loaded.
pub proof fn a_held_hook_has_an_occupant(
    occupant: Option<Occupant>,
    state: HookState,
    loaded: Seq<LoadedProgram>,
)
    requires
        occupies(occupant, state, loaded),
    ensures
        occupant is Some <==> state.prog_id is Some,
        occupant matches Some(o) ==> state.prog_id == Some(o.prog_id) && o.mode == state.mode,
{
}

/// The hook state, resolved to a named program when one is there. `None` for a free hook.
///
/// A hook that is held by a program the kernel will not name, which can be gone between the two
/// queries, still yields an occupant, with the fields the netlink answer did carry.
pub fn occupant(state: HookState, loaded: &[LoadedProgram]) -> (occupant: Option<Occupant>)
    ensures
        occupies(occupant, state, loaded@),
        match state.prog_id {
            None => occupant is None,
            Some(id) => occupant matches Some(o) && o.prog_id == id && o.name@ == program_name(
                loaded@,
                id,
            ) && o.tag == program_tag(loaded@, id) && o.mode == state.mode,
        },
{
    let prog_id: u32 = match state.prog_id {
        Some(id) => id,
        None => return None,
    };
    let mut at: usize = 0;
    while at < loaded.len() && loaded[at].id != prog_id
        invariant
            at <= loaded@.len(),
            program_of(loaded@, prog_id, 0) == program_of(loaded@, prog_id, at as int),
        decreases loaded@.len() - at,
    {
        at += 1;
    }
    if at < loaded.len() {
        let name: String = match &loaded[at].name {
            Some(name) => name.clone(),
            None => "<unnamed>".to_owned(),
        };
        Some(Occupant { prog_id, name, tag: loaded[at].tag, mode: state.mode })
    } else {
        Some(Occupant { prog_id, name: "<unnamed>".to_owned(), tag: 0, mode: state.mode })
    }
}

/// What the kernel's byte stands for: nothing, the driver, the stack, the card, or several at
/// once, and no two bytes stand for the same.
pub proof fn the_bytes_of_the_modes(raw: u8, other: u8)
    ensures
        AttachMode::of(raw) == AttachMode::Free <==> raw == 0,
        AttachMode::of(raw) == AttachMode::Native <==> raw == 1,
        AttachMode::of(raw) == AttachMode::Generic <==> raw == 2,
        AttachMode::of(raw) == AttachMode::Hardware <==> raw == 3,
        AttachMode::of(raw) == AttachMode::Multiple <==> raw == 4,
        raw > 4 ==> AttachMode::of(raw) == AttachMode::Unknown(raw),
        AttachMode::of(raw) == AttachMode::of(other) ==> raw == other,
{
}

/// What a hook holds is what its attributes say last: the mode is the first byte of the last one of
/// kind 2 that has a byte, the program the number in the last one of kind 4 that has four, which
/// is none where it is zero; and what none of them says stays as it was.
pub proof fn a_hook_holds_what_was_said_last(
    state: HookState,
    attributes: Seq<crate::netlink::Attribute>,
    order: ByteOrder,
)
    requires
        forall|k: int|
            0 <= k < attributes.len() ==> (#[trigger] attributes[k]).payload.len() <= 0xffff,
    ensures
        ({
            let known = all_hooked(state, attributes, order);
            let most = crate::fib::netlink::any_size();
            &&& forall|k: int| #[trigger]
                crate::fib::netlink::states_last(attributes, k, 2, 1, most) ==> known.mode
                    == AttachMode::of(attributes[k].payload[0])
            &&& crate::fib::netlink::states_none(attributes, 2, 1, most) ==> known.mode == state.mode
            &&& forall|k: int| #[trigger]
                crate::fib::netlink::states_last(attributes, k, 4, 4, most) ==> {
                    let id = crate::netlink::word32(attributes[k].payload, 0, order);
                    &&& id == 0 ==> known.prog_id is None
                    &&& id != 0 ==> known.prog_id is Some && known.prog_id->0 == id
                }
            &&& crate::fib::netlink::states_none(attributes, 4, 4, most) ==> known.prog_id
                == state.prog_id
        }),
    decreases attributes.len(),
{
    let most = crate::fib::netlink::any_size();
    if attributes.len() > 0 {
        let head = attributes[0];
        let rest = attributes.drop_first();
        assert forall|k: int| 0 <= k < rest.len() implies (#[trigger] rest[k]).payload.len()
            <= 0xffff by {
            assert(rest[k] == attributes[k + 1]);
        }
        a_hook_holds_what_was_said_last(hooked(state, head, order), rest, order);
        crate::fib::netlink::lemma_statements_behind(attributes, 2, 1, most);
        crate::fib::netlink::lemma_statements_behind(attributes, 4, 4, most);
        let word = crate::netlink::word32(head.payload, 0, order);
        crate::bytes::lemma_little_endian_fits(head.payload.subrange(0, 4));
        crate::bytes::lemma_big_endian_fits(head.payload.subrange(0, 4));
        assert(head.payload.len() >= 4 ==> word as u32 == word);
    }
}

/// Of the attributes of a link only those of kind 43 say something of its hook, each in turn: one
/// more at the end adds what it nests to what was known, and one of any other kind nothing.
pub proof fn a_link_is_read_at_what_it_nests(
    state: HookState,
    attributes: Seq<crate::netlink::Attribute>,
    last: crate::netlink::Attribute,
    order: ByteOrder,
)
    ensures
        link_hooked(state, Seq::empty(), order) == state,
        last.kind != 43 ==> link_hooked(state, attributes.push(last), order) == link_hooked(
            state,
            attributes,
            order,
        ),
        last.kind == 43 ==> link_hooked(state, attributes.push(last), order) == all_hooked(
            link_hooked(state, attributes, order),
            crate::netlink::attributes(last.payload, order),
            order,
        ),
    decreases attributes.len(),
{
    let longer = attributes.push(last);
    if attributes.len() == 0 {
        reveal_with_fuel(link_hooked, 2);
        assert(longer.drop_first() =~= Seq::empty());
        assert(longer[0] == last);
    } else {
        let a = attributes[0];
        let next = if a.kind == 43 {
            all_hooked(state, crate::netlink::attributes(a.payload, order), order)
        } else {
            state
        };
        assert(longer[0] == a);
        assert(longer.drop_first() =~= attributes.drop_first().push(last));
        a_link_is_read_at_what_it_nests(next, attributes.drop_first(), last, order);
    }
}

/// What an answer is read as. One without a header is short; one that claims more than it carries
/// is cut off; one of kind 2 is a refusal with the error number, which it carries negated; one of
/// kind 16 is read at the attributes behind its 32 bytes and up to the length it claims; and any
/// other kind is no link.
pub proof fn an_answer_is_read_by_its_kind(reply: Seq<u8>, order: ByteOrder, errno: int)
    ensures
        ({
            let length = crate::netlink::word32(reply, 0, order);
            let kind = crate::netlink::word16(reply, 4, order);
            let whole = reply.len() >= 16 && length <= reply.len();
            &&& reply.len() < 16 <==> parsed(reply, order) == Err::<HookState, ProbeError>(
                ProbeError::Short,
            )
            &&& reply.len() >= 16 && length > reply.len() ==> (parsed(reply, order) matches Err(
                ProbeError::Truncated { claimed, carried },
            ) && claimed == length && carried == reply.len())
            &&& whole && kind == 2 && reply.len() >= 20 && 0 < errno < 0x8000_0000
                && crate::netlink::word32(reply, 16, order) + errno == 0x1_0000_0000 ==> (parsed(reply, order) matches Err(
                ProbeError::Refused(code),
            ) && code == errno)
            &&& whole && kind != 2 && kind != 16 ==> (parsed(reply, order) matches Err(
                ProbeError::NotALink(other),
            ) && other == kind)
            &&& whole && kind == 16 ==> parsed(reply, order) == Ok::<HookState, ProbeError>(
                link_hooked(
                    HookState { prog_id: None, mode: AttachMode::Free },
                    crate::netlink::attributes(reply.subrange(32, length), order),
                    order,
                ),
            )
        }),
{
    crate::bytes::lemma_little_endian_fits(reply.subrange(0, 4));
    crate::bytes::lemma_big_endian_fits(reply.subrange(0, 4));
    crate::bytes::lemma_little_endian_fits(reply.subrange(4, 6));
    crate::bytes::lemma_big_endian_fits(reply.subrange(4, 6));
    crate::bytes::lemma_little_endian_fits(reply.subrange(16, 20));
    crate::bytes::lemma_big_endian_fits(reply.subrange(16, 20));
    if reply.len() >= 16 {
        let length = crate::netlink::word32(reply, 0, order);
        assert(length as u32 == length);
        if length > reply.len() {
            assert(reply.len() as usize == reply.len());
        }
    }
}

/// A program is named by the first that the kernel lists under its id, and by nothing where it
/// lists none.
pub proof fn a_program_is_named_by_its_id(loaded: Seq<LoadedProgram>, id: u32, i: int)
    requires
        0 <= i < loaded.len(),
        loaded[i].id == id,
        forall|j: int| 0 <= j < i ==> (#[trigger] loaded[j]).id != id,
    ensures
        program_tag(loaded, id) == loaded[i].tag,
        loaded[i].name matches Some(name) ==> program_name(loaded, id) == name@,
        loaded[i].name is None ==> program_name(loaded, id) == "<unnamed>"@,
{
    lemma_program_of(loaded, id, 0, i);
}

proof fn lemma_program_of(loaded: Seq<LoadedProgram>, id: u32, from: int, i: int)
    requires
        0 <= from <= i < loaded.len(),
        loaded[i].id == id,
        forall|j: int| from <= j < i ==> (#[trigger] loaded[j]).id != id,
    ensures
        program_of(loaded, id, from) == i,
    decreases i - from,
{
    if from < i {
        lemma_program_of(loaded, id, from + 1, i);
    }
}

/// A program that the kernel does not list has no name and no tag.
pub proof fn a_program_that_is_not_listed_has_no_name(loaded: Seq<LoadedProgram>, id: u32, from: int)
    requires
        0 <= from <= loaded.len(),
        forall|j: int| from <= j < loaded.len() ==> (#[trigger] loaded[j]).id != id,
    ensures
        from == 0 ==> program_name(loaded, id) == "<unnamed>"@ && program_tag(loaded, id) == 0,
        program_of(loaded, id, from) == loaded.len(),
    decreases loaded.len() - from,
{
    if from < loaded.len() {
        a_program_that_is_not_listed_has_no_name(loaded, id, from + 1);
    }
}

/// Where the kernel reads the request for a link: 32 bytes that state their length, of kind 18,
/// with the flag of a request alone, and the index of the link behind the first four bytes of the
/// body.
pub proof fn the_request_asks_for_one_link(bytes: Seq<u8>, index: u32, order: ByteOrder)
    requires
        is_link_request(bytes, index, order),
    ensures
        bytes.len() == 32,
        crate::bytes::number(bytes.subrange(0, 4), order) == 32,
        crate::bytes::number(bytes.subrange(4, 6), order) == 18,
        crate::bytes::number(bytes.subrange(6, 8), order) == 1,
        crate::bytes::number(bytes.subrange(20, 24), order) == index,
        bytes[16] == 0,
{
    assert(bytes.subrange(16, 20)[0] == bytes[16]);
}

} // verus!
