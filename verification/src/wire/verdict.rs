//! Verdicts, and the list entries that carry them.

use vstd::prelude::*;

use crate::bytes::{push_number, ByteOrder};
use crate::ttl::Deadline;

verus! {

/// Verdict a stage reached. `Continue` means it reached none and the next stage decides.
#[derive(Clone, Copy, PartialEq, Eq, Debug, Structural)]
pub enum Action {
    Continue,
    Allow,
    Drop,
    RateLimit,
    Mark,
}

impl Action {
    /// The byte a verdict is stored as.
    pub open spec fn code(self) -> u8 {
        match self {
            Action::Continue => 0,
            Action::Allow => 1,
            Action::Drop => 2,
            Action::RateLimit => 3,
            Action::Mark => 4,
        }
    }

    /// The verdict a byte stands for, if it stands for one.
    pub open spec fn decode(raw: u8) -> Option<Action> {
        match raw {
            0 => Some(Action::Continue),
            1 => Some(Action::Allow),
            2 => Some(Action::Drop),
            3 => Some(Action::RateLimit),
            4 => Some(Action::Mark),
            _ => None,
        }
    }

    /// Parses a byte coming from a configuration file or a map dump. Configuration is not a
    /// trusted source of bytes, so a byte no verdict has is `None`.
    pub fn from_u8(raw: u8) -> (action: Option<Self>)
        ensures
            action == Self::decode(raw),
            action matches Some(a) ==> a.code() == raw,
            action is None <==> raw > 4,
    {
        match raw {
            0 => Some(Self::Continue),
            1 => Some(Self::Allow),
            2 => Some(Self::Drop),
            3 => Some(Self::RateLimit),
            4 => Some(Self::Mark),
            _ => None,
        }
    }

    /// The byte this verdict is stored as.
    pub fn to_u8(self) -> (raw: u8)
        ensures
            raw == self.code(),
            raw <= 4,
    {
        self as u8
    }
}

/// A verdict survives the byte it is stored in.
pub proof fn action_round_trip(action: Action)
    ensures
        Action::decode(action.code()) == Some(action),
{
}

/// How many `(proto, port range)` couples one list entry can carry.
pub const SCOPE_MAX: usize = 4;

/// One `(proto, port range)` couple an entry applies to. Both bounds are inclusive.
#[derive(Clone, Copy, PartialEq, Eq, Debug, Structural)]
pub struct Scope {
    pub proto: u8,
    pub port_lo: u16,
    pub port_hi: u16,
}

impl Scope {
    /// A couple of a protocol and a port range.
    pub fn new(proto: u8, port_lo: u16, port_hi: u16) -> (scope: Self)
        ensures
            scope == (Scope { proto, port_lo, port_hi }),
    {
        Scope { proto, port_lo, port_hi }
    }

    /// Whether a protocol and a port fall inside the couple.
    pub open spec fn covers(self, proto: u8, port: u16) -> bool {
        self.proto == proto && self.port_lo <= port <= self.port_hi
    }

    /// Whether a protocol and a port fall inside the couple.
    pub fn matches(&self, proto: u8, port: u16) -> (inside: bool)
        ensures
            inside == self.covers(proto, port),
    {
        self.proto == proto && port >= self.port_lo && port <= self.port_hi
    }

    /// The six bytes of a couple: the protocol, a zero that pads it, and the two bounds.
    pub open spec fn is_layout(self, bytes: Seq<u8>, order: ByteOrder) -> bool {
        &&& bytes.len() == 6
        &&& bytes[0] == self.proto
        &&& bytes[1] == 0
        &&& crate::bytes::number(bytes.subrange(2, 4), order) == self.port_lo
        &&& crate::bytes::number(bytes.subrange(4, 6), order) == self.port_hi
    }

    /// The bytes of a couple, as the kernel reads them.
    pub fn to_bytes(&self, order: ByteOrder) -> (bytes: Vec<u8>)
        ensures
            self.is_layout(bytes@, order),
    {
        let mut bytes: Vec<u8> = Vec::new();
        self.push_bytes(&mut bytes, order);
        assert(bytes@.skip(0) =~= bytes@);
        bytes
    }

    fn push_bytes(&self, bytes: &mut Vec<u8>, order: ByteOrder)
        ensures
            final(bytes)@.len() == old(bytes)@.len() + 6,
            final(bytes)@.take(old(bytes)@.len() as int) == old(bytes)@,
            self.is_layout(final(bytes)@.skip(old(bytes)@.len() as int), order),
    {
        let ghost before = bytes@;
        let ghost len = before.len() as int;
        bytes.push(self.proto);
        bytes.push(0);
        let ghost one = bytes@;
        push_number(bytes, self.port_lo as u64, 2, order);
        let ghost two = bytes@;
        push_number(bytes, self.port_hi as u64, 2, order);
        proof {
            let all = bytes@;
            let tail = all.skip(len);
            assert(all.take(len + 4) == two);
            assert(two.take(len + 2) == one);
            assert(all.take(len) =~= all.take(len + 4).take(len + 2).take(len));
            assert(one.take(len) =~= before);
            assert(tail[0] == two[len] && two[len] == two.take(len + 2)[len]);
            assert(tail[1] == two[len + 1] && two[len + 1] == two.take(len + 2)[len + 1]);
            assert(tail.subrange(2, 4) =~= two.skip(len + 2));
            assert(tail.subrange(4, 6) =~= all.skip(len + 4));
        }
    }
}

/// Value of the unified list.
///
/// The scope lives in the value rather than in the key because an LPM trie matches only the
/// first `prefix_len` bits of its key.
#[derive(Clone, Copy, PartialEq, Eq, Debug)]
pub struct LpmValue {
    pub action: Action,
    pub priority: u8,
    pub scope_len: u8,
    pub scopes: [Scope; SCOPE_MAX],
    pub deadline: Deadline,
    pub counter_idx: u32,
}

impl LpmValue {
    /// The value whose every byte is zero: no verdict, no scope, and a deadline that has passed.
    pub fn zeroed() -> (value: Self)
        ensures
            value.action == Action::Continue,
            value.priority == 0,
            value.scope_len == 0,
            forall|i: int|
                0 <= i < SCOPE_MAX ==> #[trigger] value.scopes[i] == (Scope {
                    proto: 0,
                    port_lo: 0,
                    port_hi: 0,
                }),
            value.deadline == Deadline(0),
            value.counter_idx == 0,
    {
        let scope: Scope = Scope { proto: 0, port_lo: 0, port_hi: 0 };
        LpmValue {
            action: Action::Continue,
            priority: 0,
            scope_len: 0,
            scopes: [scope, scope, scope, scope],
            deadline: Deadline(0),
            counter_idx: 0,
        }
    }

    /// How many couples count: a length written past the array is clamped rather than trusted.
    pub open spec fn scope_count(self) -> int {
        if self.scope_len < SCOPE_MAX {
            self.scope_len as int
        } else {
            SCOPE_MAX as int
        }
    }

    /// Whether the entry applies to a protocol and a port: it has no scope, or one covers them.
    pub open spec fn in_scope(self, proto: u8, port: u16) -> bool {
        self.scope_len == 0 || exists|i: int|
            0 <= i < self.scope_count() && #[trigger] self.scopes[i].covers(proto, port)
    }

    /// Whether the entry applies to this `(proto, port)`. An entry with no scope applies to
    /// everything from the prefix.
    pub fn applies_to(&self, proto: u8, port: u16) -> (applies: bool)
        ensures
            applies == self.in_scope(proto, port),
    {
        if self.scope_len == 0 {
            return true;
        }
        let len: usize = if (self.scope_len as usize) < SCOPE_MAX {
            self.scope_len as usize
        } else {
            SCOPE_MAX
        };
        let mut i: usize = 0;
        while i < len
            invariant
                i <= len,
                len == self.scope_count(),
                self.scope_len > 0,
                forall|j: int| 0 <= j < i ==> !#[trigger] self.scopes[j].covers(proto, port),
            decreases len - i,
        {
            if self.scopes[i].matches(proto, port) {
                return true;
            }
            i += 1;
        }
        false
    }

    /// The forty-eight bytes of an entry: three single bytes, the four couples from byte 4, the
    /// deadline at 32 and the counter index at 40, with zeros in the three holes between.
    pub open spec fn is_layout(self, bytes: Seq<u8>, order: ByteOrder) -> bool {
        &&& bytes.len() == 48
        &&& bytes[0] == self.action.code()
        &&& bytes[1] == self.priority
        &&& bytes[2] == self.scope_len
        &&& bytes[3] == 0
        &&& forall|i: int|
            0 <= i < SCOPE_MAX ==> #[trigger] self.scopes[i].is_layout(
                bytes.subrange(4 + 6 * i, 10 + 6 * i),
                order,
            )
        &&& bytes.subrange(28, 32) == seq![0u8, 0, 0, 0]
        &&& crate::bytes::number(bytes.subrange(32, 40), order) == self.deadline.0
        &&& crate::bytes::number(bytes.subrange(40, 44), order) == self.counter_idx
        &&& bytes.subrange(44, 48) == seq![0u8, 0, 0, 0]
    }

    /// The bytes of an entry, as the kernel reads them. The holes of the layout are zeros, not
    /// whatever was in memory.
    pub fn to_bytes(&self, order: ByteOrder) -> (bytes: Vec<u8>)
        ensures
            self.is_layout(bytes@, order),
    {
        let mut bytes: Vec<u8> = Vec::new();
        bytes.push(self.action.to_u8());
        bytes.push(self.priority);
        bytes.push(self.scope_len);
        bytes.push(0);
        let ghost head = bytes@;
        let mut i: usize = 0;
        while i < SCOPE_MAX
            invariant
                i <= SCOPE_MAX,
                head.len() == 4,
                bytes@.len() == 4 + 6 * i,
                bytes@.take(4) == head,
                forall|j: int|
                    0 <= j < i ==> #[trigger] self.scopes[j].is_layout(
                        bytes@.subrange(4 + 6 * j, 10 + 6 * j),
                        order,
                    ),
            decreases SCOPE_MAX - i,
        {
            let ghost before = bytes@;
            self.scopes[i].push_bytes(&mut bytes, order);
            proof {
                let len = before.len() as int;
                assert(bytes@.take(4) =~= bytes@.take(len).take(4));
                assert forall|j: int| 0 <= j < i + 1 implies #[trigger] self.scopes[j].is_layout(
                    bytes@.subrange(4 + 6 * j, 10 + 6 * j),
                    order,
                ) by {
                    let run = bytes@.subrange(4 + 6 * j, 10 + 6 * j);
                    if j < i {
                        assert(run =~= bytes@.take(len).subrange(4 + 6 * j, 10 + 6 * j));
                    } else {
                        assert(run =~= bytes@.skip(len));
                    }
                }
            }
            i += 1;
        }
        let ghost scoped = bytes@;
        push_zeros(&mut bytes);
        let ghost padded = bytes@;
        push_number(&mut bytes, self.deadline.0, 8, order);
        let ghost dated = bytes@;
        push_number(&mut bytes, self.counter_idx as u64, 4, order);
        let ghost counted = bytes@;
        push_zeros(&mut bytes);
        proof {
            let all = bytes@;
            assert(all.take(44) =~= counted);
            assert(all.take(40) =~= counted.take(40));
            assert(all.take(32) =~= dated.take(32));
            assert(all.take(28) =~= scoped) by {
                assert(all.take(28) =~= padded.take(28));
            }
            assert(all.take(4) =~= scoped.take(4));
            assert(all[0] == all.take(4)[0] && all[1] == all.take(4)[1] && all[2] == all.take(4)[2]
                && all[3] == all.take(4)[3]);
            assert forall|j: int| 0 <= j < SCOPE_MAX implies #[trigger] self.scopes[j].is_layout(
                all.subrange(4 + 6 * j, 10 + 6 * j),
                order,
            ) by {
                assert(all.subrange(4 + 6 * j, 10 + 6 * j) =~= all.take(28).subrange(
                    4 + 6 * j,
                    10 + 6 * j,
                ));
            }
            assert(all.subrange(28, 32) =~= all.take(32).skip(28));
            assert(all.subrange(32, 40) =~= all.take(40).skip(32));
            assert(all.subrange(40, 44) =~= all.take(44).skip(40));
            assert(all.subrange(44, 48) =~= all.skip(44));
        }
        bytes
    }
}

/// An entry applies to all that each of its couples covers, whichever couple it is: the protocol
/// is the couple's and the port lies between its two bounds, both included.
pub proof fn an_entry_applies_to_what_each_couple_covers(
    value: LpmValue,
    proto: u8,
    port: u16,
    i: int,
)
    requires
        0 <= i < 4,
        i < value.scope_len,
        value.scopes[i].proto == proto,
        value.scopes[i].port_lo <= port,
        port <= value.scopes[i].port_hi,
    ensures
        value.in_scope(proto, port),
{
    assert(value.scopes[i].covers(proto, port));
}

/// An entry with a couple applies to nothing that none of its couples covers, and couples past
/// its length do not count. An entry without one applies to everything.
pub proof fn an_entry_applies_to_nothing_else(value: LpmValue, proto: u8, port: u16)
    ensures
        value.scope_len == 0 ==> value.in_scope(proto, port),
        value.scope_len > 0 && value.in_scope(proto, port) ==> exists|i: int|
            0 <= i < 4 && i < value.scope_len && (#[trigger] value.scopes[i]).proto == proto
                && value.scopes[i].port_lo <= port && port <= value.scopes[i].port_hi,
{
}

/// Whether an entry applies depends on its length and on the couples below it, and on nothing
/// else: not on their order, nor on the verdict, the priority, the deadline or the counter.
pub proof fn only_the_couples_decide_what_an_entry_applies_to(
    a: LpmValue,
    b: LpmValue,
    proto: u8,
    port: u16,
)
    requires
        a.scope_len == 0 <==> b.scope_len == 0,
        forall|i: int|
            0 <= i < 4 && i < a.scope_len ==> exists|j: int|
                0 <= j < 4 && j < b.scope_len && #[trigger] a.scopes[i] == #[trigger] b.scopes[j],
        forall|j: int|
            0 <= j < 4 && j < b.scope_len ==> exists|i: int|
                0 <= i < 4 && i < a.scope_len && #[trigger] a.scopes[i] == #[trigger] b.scopes[j],
    ensures
        a.in_scope(proto, port) == b.in_scope(proto, port),
{
    if a.scope_len > 0 && a.in_scope(proto, port) {
        let i = choose|i: int|
            0 <= i < a.scope_count() && #[trigger] a.scopes[i].covers(proto, port);
        let j = choose|j: int| 0 <= j < 4 && j < b.scope_len && a.scopes[i] == #[trigger] b.scopes[j];
        assert(b.scopes[j].covers(proto, port));
    }
    if b.scope_len > 0 && b.in_scope(proto, port) {
        let j = choose|j: int|
            0 <= j < b.scope_count() && #[trigger] b.scopes[j].covers(proto, port);
        let i = choose|i: int| 0 <= i < 4 && i < a.scope_len && #[trigger] a.scopes[i] == b.scopes[j];
        assert(a.scopes[i].covers(proto, port));
    }
}

/// An entry whose every field is zero is forty-eight zeros, the holes of the layout with them.
pub proof fn a_zeroed_entry_is_all_zeros(value: LpmValue, bytes: Seq<u8>, order: ByteOrder)
    requires
        value.action == Action::Continue,
        value.priority == 0,
        value.scope_len == 0,
        forall|i: int|
            0 <= i < SCOPE_MAX ==> #[trigger] value.scopes[i] == (Scope {
                proto: 0,
                port_lo: 0,
                port_hi: 0,
            }),
        value.deadline == Deadline(0),
        value.counter_idx == 0,
        value.is_layout(bytes, order),
    ensures
        bytes.len() == 48,
        forall|i: int| 0 <= i < 48 ==> #[trigger] bytes[i] == 0,
{
    crate::bytes::lemma_zero_number(bytes.subrange(32, 40), order);
    crate::bytes::lemma_zero_number(bytes.subrange(40, 44), order);
    assert forall|i: int| 0 <= i < 48 implies #[trigger] bytes[i] == 0 by {
        if 4 <= i < 28 {
            let couple = (i - 4) / 6;
            let run = bytes.subrange(4 + 6 * couple, 10 + 6 * couple);
            assert(value.scopes[couple].is_layout(run, order));
            crate::bytes::lemma_zero_number(run.subrange(2, 4), order);
            crate::bytes::lemma_zero_number(run.subrange(4, 6), order);
            let at = (i - 4) % 6;
            assert(bytes[i] == run[at]);
            assert(2 <= at < 4 ==> run[at] == run.subrange(2, 4)[at - 2]);
            assert(4 <= at ==> run[at] == run.subrange(4, 6)[at - 4]);
        } else if 28 <= i < 32 {
            assert(bytes[i] == bytes.subrange(28, 32)[i - 28]);
        } else if 32 <= i < 40 {
            assert(bytes[i] == bytes.subrange(32, 40)[i - 32]);
        } else if 40 <= i < 44 {
            assert(bytes[i] == bytes.subrange(40, 44)[i - 40]);
        } else if 44 <= i {
            assert(bytes[i] == bytes.subrange(44, 48)[i - 44]);
        }
    }
}

/// Appends the four zeros of a hole.
fn push_zeros(bytes: &mut Vec<u8>)
    ensures
        final(bytes)@.len() == old(bytes)@.len() + 4,
        final(bytes)@.take(old(bytes)@.len() as int) == old(bytes)@,
        final(bytes)@.skip(old(bytes)@.len() as int) == seq![0u8, 0, 0, 0],
{
    let ghost before = bytes@;
    bytes.push(0);
    bytes.push(0);
    bytes.push(0);
    bytes.push(0);
    assert(bytes@.take(before.len() as int) =~= before);
    assert(bytes@.skip(before.len() as int) =~= seq![0u8, 0, 0, 0]);
}

/// Where each field of an entry sits in its forty-eight bytes: the verdict, the priority and the
/// number of couples first, couple `i` at `4 + 6 i` with its protocol, its low bound and its high
/// bound, the deadline at 32 and the counter at 40.
pub proof fn the_fields_of_an_entry_sit_at_their_offsets(
    value: LpmValue,
    bytes: Seq<u8>,
    order: ByteOrder,
    i: int,
)
    requires
        value.is_layout(bytes, order),
        0 <= i < 4,
    ensures
        bytes.len() == 48,
        Action::decode(bytes[0]) == Some(value.action),
        bytes[1] == value.priority,
        bytes[2] == value.scope_len,
        bytes[4 + 6 * i] == value.scopes[i].proto,
        crate::bytes::number(bytes.subrange(6 + 6 * i, 8 + 6 * i), order) == value.scopes[i].port_lo,
        crate::bytes::number(bytes.subrange(8 + 6 * i, 10 + 6 * i), order)
            == value.scopes[i].port_hi,
        crate::bytes::number(bytes.subrange(32, 40), order) == value.deadline.0,
        crate::bytes::number(bytes.subrange(40, 44), order) == value.counter_idx,
{
    let run = bytes.subrange(4 + 6 * i, 10 + 6 * i);
    assert(value.scopes[i].is_layout(run, order));
    assert(run[0] == bytes[4 + 6 * i]);
    assert(run.subrange(2, 4) =~= bytes.subrange(6 + 6 * i, 8 + 6 * i));
    assert(run.subrange(4, 6) =~= bytes.subrange(8 + 6 * i, 10 + 6 * i));
    action_round_trip(value.action);
}

/// A byte stands for a verdict where it is at most four, and the bytes are the verdicts in the
/// order of a stage that grows stricter: none, then allow, drop, limit and mark. No two verdicts
/// share a byte.
pub proof fn the_bytes_of_the_verdicts(raw: u8, action: Action)
    ensures
        Action::decode(raw) is Some <==> raw <= 4,
        Action::decode(raw) == Some(action) <==> raw == action.code(),
        action.code() == 0 <==> action == Action::Continue,
        action.code() == 1 <==> action == Action::Allow,
        action.code() == 2 <==> action == Action::Drop,
        action.code() == 3 <==> action == Action::RateLimit,
        action.code() == 4 <==> action == Action::Mark,
{
}

} // verus!
