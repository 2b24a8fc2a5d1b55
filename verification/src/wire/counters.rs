//! The counters, and how the map that holds them is laid out.

use vstd::prelude::*;

use crate::text::str_eq;

verus! {

/// Index into the counter array. A stage adds no variant, it uses one.
#[derive(Clone, Copy, PartialEq, Eq, Debug, Structural)]
pub enum CounterId {
    ParseTruncated,
    ParseDepthExceeded,
    ParseUnknownEncap,
    SanityIpLength,
    SanityL4Length,
    SanityTcpFlags,
    SanityIpOptionsRefused,
    IcmpPathMtuPassed,
    IcmpNeighborPassed,
    IcmpEchoDropped,
    IcmpOtherDropped,
    LpmAllowExit,
    LpmDropHit,
    LpmScopeMiss,
    LpmExpired,
    FragmentFirstPassed,
    FragmentLaterDropped,
    FragmentLaterAllowed,
    UrpfNoRoute,
    UrpfWrongInterface,
    UrpfLookupUnsupported,
    SignatureAmpDns,
    SignatureAmpNtp,
    SignatureAmpSsdp,
    SignatureAmpMemcached,
    SignatureAmpA2s,
    SignatureAmpRaknet,
    SignatureLoopyPortPair,
    SignatureFragAbuse,
    SignatureImpossibleTcpFlags,
    SignatureLengthMismatch,
    BucketOverBudget,
    BucketMarked,
    BogonRefused,
}

impl CounterId {
    /// Every counter, in the order of the map.
    pub const ALL: [CounterId; 34] = [
        Self::ParseTruncated,
        Self::ParseDepthExceeded,
        Self::ParseUnknownEncap,
        Self::SanityIpLength,
        Self::SanityL4Length,
        Self::SanityTcpFlags,
        Self::SanityIpOptionsRefused,
        Self::IcmpPathMtuPassed,
        Self::IcmpNeighborPassed,
        Self::IcmpEchoDropped,
        Self::IcmpOtherDropped,
        Self::LpmAllowExit,
        Self::LpmDropHit,
        Self::LpmScopeMiss,
        Self::LpmExpired,
        Self::FragmentFirstPassed,
        Self::FragmentLaterDropped,
        Self::FragmentLaterAllowed,
        Self::UrpfNoRoute,
        Self::UrpfWrongInterface,
        Self::UrpfLookupUnsupported,
        Self::SignatureAmpDns,
        Self::SignatureAmpNtp,
        Self::SignatureAmpSsdp,
        Self::SignatureAmpMemcached,
        Self::SignatureAmpA2s,
        Self::SignatureAmpRaknet,
        Self::SignatureLoopyPortPair,
        Self::SignatureFragAbuse,
        Self::SignatureImpossibleTcpFlags,
        Self::SignatureLengthMismatch,
        Self::BucketOverBudget,
        Self::BucketMarked,
        Self::BogonRefused,
    ];

    /// How many slots of the counter map the named counters occupy. Every slot above this one
    /// belongs to a single entry of the unified list.
    pub const COUNT: u32 = 34;

    /// The slot of a counter.
    pub open spec fn slot(self) -> u32 {
        match self {
            CounterId::ParseTruncated => 0,
            CounterId::ParseDepthExceeded => 1,
            CounterId::ParseUnknownEncap => 2,
            CounterId::SanityIpLength => 3,
            CounterId::SanityL4Length => 4,
            CounterId::SanityTcpFlags => 5,
            CounterId::SanityIpOptionsRefused => 6,
            CounterId::IcmpPathMtuPassed => 7,
            CounterId::IcmpNeighborPassed => 8,
            CounterId::IcmpEchoDropped => 9,
            CounterId::IcmpOtherDropped => 10,
            CounterId::LpmAllowExit => 11,
            CounterId::LpmDropHit => 12,
            CounterId::LpmScopeMiss => 13,
            CounterId::LpmExpired => 14,
            CounterId::FragmentFirstPassed => 15,
            CounterId::FragmentLaterDropped => 16,
            CounterId::FragmentLaterAllowed => 17,
            CounterId::UrpfNoRoute => 18,
            CounterId::UrpfWrongInterface => 19,
            CounterId::UrpfLookupUnsupported => 20,
            CounterId::SignatureAmpDns => 21,
            CounterId::SignatureAmpNtp => 22,
            CounterId::SignatureAmpSsdp => 23,
            CounterId::SignatureAmpMemcached => 24,
            CounterId::SignatureAmpA2s => 25,
            CounterId::SignatureAmpRaknet => 26,
            CounterId::SignatureLoopyPortPair => 27,
            CounterId::SignatureFragAbuse => 28,
            CounterId::SignatureImpossibleTcpFlags => 29,
            CounterId::SignatureLengthMismatch => 30,
            CounterId::BucketOverBudget => 31,
            CounterId::BucketMarked => 32,
            CounterId::BogonRefused => 33,
        }
    }

    /// The name of a counter.
    pub open spec fn label(self) -> Seq<char> {
        match self {
            CounterId::ParseTruncated => "parse_truncated"@,
            CounterId::ParseDepthExceeded => "parse_depth_exceeded"@,
            CounterId::ParseUnknownEncap => "parse_unknown_encap"@,
            CounterId::SanityIpLength => "sanity_ip_length"@,
            CounterId::SanityL4Length => "sanity_l4_length"@,
            CounterId::SanityTcpFlags => "sanity_tcp_flags"@,
            CounterId::SanityIpOptionsRefused => "sanity_ip_options_refused"@,
            CounterId::IcmpPathMtuPassed => "icmp_path_mtu_passed"@,
            CounterId::IcmpNeighborPassed => "icmp_neighbor_passed"@,
            CounterId::IcmpEchoDropped => "icmp_echo_dropped"@,
            CounterId::IcmpOtherDropped => "icmp_other_dropped"@,
            CounterId::LpmAllowExit => "lpm_allow_exit"@,
            CounterId::LpmDropHit => "lpm_drop_hit"@,
            CounterId::LpmScopeMiss => "lpm_scope_miss"@,
            CounterId::LpmExpired => "lpm_expired"@,
            CounterId::FragmentFirstPassed => "fragment_first_passed"@,
            CounterId::FragmentLaterDropped => "fragment_later_dropped"@,
            CounterId::FragmentLaterAllowed => "fragment_later_allowed"@,
            CounterId::UrpfNoRoute => "urpf_no_route"@,
            CounterId::UrpfWrongInterface => "urpf_wrong_interface"@,
            CounterId::UrpfLookupUnsupported => "urpf_lookup_unsupported"@,
            CounterId::SignatureAmpDns => "signature_amp_dns"@,
            CounterId::SignatureAmpNtp => "signature_amp_ntp"@,
            CounterId::SignatureAmpSsdp => "signature_amp_ssdp"@,
            CounterId::SignatureAmpMemcached => "signature_amp_memcached"@,
            CounterId::SignatureAmpA2s => "signature_amp_a2s"@,
            CounterId::SignatureAmpRaknet => "signature_amp_raknet"@,
            CounterId::SignatureLoopyPortPair => "signature_loopy_port_pair"@,
            CounterId::SignatureFragAbuse => "signature_frag_abuse"@,
            CounterId::SignatureImpossibleTcpFlags => "signature_impossible_tcp_flags"@,
            CounterId::SignatureLengthMismatch => "signature_length_mismatch"@,
            CounterId::BucketOverBudget => "bucket_over_budget"@,
            CounterId::BucketMarked => "bucket_marked"@,
            CounterId::BogonRefused => "bogon_refused"@,
        }
    }

    /// The name a counter is looked up by.
    pub fn name(self) -> (name: &'static str)
        ensures
            name@ == self.label(),
    {
        match self {
            Self::ParseTruncated => "parse_truncated",
            Self::ParseDepthExceeded => "parse_depth_exceeded",
            Self::ParseUnknownEncap => "parse_unknown_encap",
            Self::SanityIpLength => "sanity_ip_length",
            Self::SanityL4Length => "sanity_l4_length",
            Self::SanityTcpFlags => "sanity_tcp_flags",
            Self::SanityIpOptionsRefused => "sanity_ip_options_refused",
            Self::IcmpPathMtuPassed => "icmp_path_mtu_passed",
            Self::IcmpNeighborPassed => "icmp_neighbor_passed",
            Self::IcmpEchoDropped => "icmp_echo_dropped",
            Self::IcmpOtherDropped => "icmp_other_dropped",
            Self::LpmAllowExit => "lpm_allow_exit",
            Self::LpmDropHit => "lpm_drop_hit",
            Self::LpmScopeMiss => "lpm_scope_miss",
            Self::LpmExpired => "lpm_expired",
            Self::FragmentFirstPassed => "fragment_first_passed",
            Self::FragmentLaterDropped => "fragment_later_dropped",
            Self::FragmentLaterAllowed => "fragment_later_allowed",
            Self::UrpfNoRoute => "urpf_no_route",
            Self::UrpfWrongInterface => "urpf_wrong_interface",
            Self::UrpfLookupUnsupported => "urpf_lookup_unsupported",
            Self::SignatureAmpDns => "signature_amp_dns",
            Self::SignatureAmpNtp => "signature_amp_ntp",
            Self::SignatureAmpSsdp => "signature_amp_ssdp",
            Self::SignatureAmpMemcached => "signature_amp_memcached",
            Self::SignatureAmpA2s => "signature_amp_a2s",
            Self::SignatureAmpRaknet => "signature_amp_raknet",
            Self::SignatureLoopyPortPair => "signature_loopy_port_pair",
            Self::SignatureFragAbuse => "signature_frag_abuse",
            Self::SignatureImpossibleTcpFlags => "signature_impossible_tcp_flags",
            Self::SignatureLengthMismatch => "signature_length_mismatch",
            Self::BucketOverBudget => "bucket_over_budget",
            Self::BucketMarked => "bucket_marked",
            Self::BogonRefused => "bogon_refused",
        }
    }

    /// The slot of a counter in the map.
    pub fn index(self) -> (index: u32)
        ensures
            index == self.slot(),
            index < Self::COUNT,
    {
        self as u32
    }

    /// The counter of a name, where one has it.
    pub fn from_name(name: &str) -> (id: Option<Self>)
        ensures
            id matches Some(counter) ==> counter.label() == name@,
            id is None ==> forall|counter: CounterId| #[trigger] counter.label() != name@,
    {
        let mut i: usize = 0;
        while i < 34
            invariant
                i <= 34,
                forall|j: int| 0 <= j < i ==> (#[trigger] Self::ALL@[j]).label() != name@,
            decreases 34 - i,
        {
            let id: CounterId = Self::ALL[i];
            if str_eq(id.name(), name) {
                return Some(id);
            }
            i += 1;
        }
        proof {
            assert forall|counter: CounterId| #[trigger] counter.label() != name@ by {
                the_slots_are_the_order(counter, 0);
                assert(Self::ALL@[counter.slot() as int] == counter);
            }
        }
        None
    }
}

/// The order of the table is the order of the slots, and each slot below the count has its
/// counter.
pub proof fn the_slots_are_the_order(id: CounterId, slot: int)
    ensures
        id.slot() < CounterId::COUNT,
        CounterId::ALL@[id.slot() as int] == id,
        0 <= slot < CounterId::COUNT ==> CounterId::ALL@[slot].slot() == slot,
{
}

/// Enough of a name to tell it from every other: its length and two characters.
spec fn mark(label: Seq<char>) -> (nat, char, char) {
    (label.len(), label[label.len() - 9], label[label.len() - 3])
}

/// The marks of the names.
spec fn mark_of(id: CounterId) -> (nat, char, char) {
    match id {
        CounterId::ParseTruncated => (15, 't', 't'),
        CounterId::ParseDepthExceeded => (20, '_', 'd'),
        CounterId::ParseUnknownEncap => (19, 'o', 'c'),
        CounterId::SanityIpLength => (16, 'i', 'g'),
        CounterId::SanityL4Length => (16, 'l', 'g'),
        CounterId::SanityTcpFlags => (16, 't', 'a'),
        CounterId::SanityIpOptionsRefused => (25, 's', 's'),
        CounterId::IcmpPathMtuPassed => (20, 't', 's'),
        CounterId::IcmpNeighborPassed => (20, 'o', 's'),
        CounterId::IcmpEchoDropped => (17, 'o', 'p'),
        CounterId::IcmpOtherDropped => (18, 'r', 'p'),
        CounterId::LpmAllowExit => (14, 'l', 'x'),
        CounterId::LpmDropHit => (12, '_', 'h'),
        CounterId::LpmScopeMiss => (14, 'c', 'i'),
        CounterId::LpmExpired => (11, 'm', 'r'),
        CounterId::FragmentFirstPassed => (21, 's', 's'),
        CounterId::FragmentLaterDropped => (22, 'r', 'p'),
        CounterId::FragmentLaterAllowed => (22, 'r', 'w'),
        CounterId::UrpfNoRoute => (13, '_', 'u'),
        CounterId::UrpfWrongInterface => (20, 'i', 'a'),
        CounterId::UrpfLookupUnsupported => (23, 's', 't'),
        CounterId::SignatureAmpDns => (17, 'e', 'd'),
        CounterId::SignatureAmpNtp => (17, 'e', 'n'),
        CounterId::SignatureAmpSsdp => (18, '_', 's'),
        CounterId::SignatureAmpMemcached => (23, 'm', 'h'),
        CounterId::SignatureAmpA2s => (17, 'e', 'a'),
        CounterId::SignatureAmpRaknet => (20, 'm', 'n'),
        CounterId::SignatureLoopyPortPair => (25, 'p', 'a'),
        CounterId::SignatureFragAbuse => (20, 'r', 'u'),
        CounterId::SignatureImpossibleTcpFlags => (30, 't', 'a'),
        CounterId::SignatureLengthMismatch => (25, '_', 't'),
        CounterId::BucketOverBudget => (18, 'e', 'g'),
        CounterId::BucketMarked => (13, 'e', 'k'),
        CounterId::BogonRefused => (13, 'n', 's'),
    }
}

proof fn lemma_marks(id: CounterId)
    ensures
        mark(id.label()) == mark_of(id),
{
    match id {
        CounterId::ParseTruncated => {
            reveal_strlit("parse_truncated");
        },
        CounterId::ParseDepthExceeded => {
            reveal_strlit("parse_depth_exceeded");
        },
        CounterId::ParseUnknownEncap => {
            reveal_strlit("parse_unknown_encap");
        },
        CounterId::SanityIpLength => {
            reveal_strlit("sanity_ip_length");
        },
        CounterId::SanityL4Length => {
            reveal_strlit("sanity_l4_length");
        },
        CounterId::SanityTcpFlags => {
            reveal_strlit("sanity_tcp_flags");
        },
        CounterId::SanityIpOptionsRefused => {
            reveal_strlit("sanity_ip_options_refused");
        },
        CounterId::IcmpPathMtuPassed => {
            reveal_strlit("icmp_path_mtu_passed");
        },
        CounterId::IcmpNeighborPassed => {
            reveal_strlit("icmp_neighbor_passed");
        },
        CounterId::IcmpEchoDropped => {
            reveal_strlit("icmp_echo_dropped");
        },
        CounterId::IcmpOtherDropped => {
            reveal_strlit("icmp_other_dropped");
        },
        CounterId::LpmAllowExit => {
            reveal_strlit("lpm_allow_exit");
        },
        CounterId::LpmDropHit => {
            reveal_strlit("lpm_drop_hit");
        },
        CounterId::LpmScopeMiss => {
            reveal_strlit("lpm_scope_miss");
        },
        CounterId::LpmExpired => {
            reveal_strlit("lpm_expired");
        },
        CounterId::FragmentFirstPassed => {
            reveal_strlit("fragment_first_passed");
        },
        CounterId::FragmentLaterDropped => {
            reveal_strlit("fragment_later_dropped");
        },
        CounterId::FragmentLaterAllowed => {
            reveal_strlit("fragment_later_allowed");
        },
        CounterId::UrpfNoRoute => {
            reveal_strlit("urpf_no_route");
        },
        CounterId::UrpfWrongInterface => {
            reveal_strlit("urpf_wrong_interface");
        },
        CounterId::UrpfLookupUnsupported => {
            reveal_strlit("urpf_lookup_unsupported");
        },
        CounterId::SignatureAmpDns => {
            reveal_strlit("signature_amp_dns");
        },
        CounterId::SignatureAmpNtp => {
            reveal_strlit("signature_amp_ntp");
        },
        CounterId::SignatureAmpSsdp => {
            reveal_strlit("signature_amp_ssdp");
        },
        CounterId::SignatureAmpMemcached => {
            reveal_strlit("signature_amp_memcached");
        },
        CounterId::SignatureAmpA2s => {
            reveal_strlit("signature_amp_a2s");
        },
        CounterId::SignatureAmpRaknet => {
            reveal_strlit("signature_amp_raknet");
        },
        CounterId::SignatureLoopyPortPair => {
            reveal_strlit("signature_loopy_port_pair");
        },
        CounterId::SignatureFragAbuse => {
            reveal_strlit("signature_frag_abuse");
        },
        CounterId::SignatureImpossibleTcpFlags => {
            reveal_strlit("signature_impossible_tcp_flags");
        },
        CounterId::SignatureLengthMismatch => {
            reveal_strlit("signature_length_mismatch");
        },
        CounterId::BucketOverBudget => {
            reveal_strlit("bucket_over_budget");
        },
        CounterId::BucketMarked => {
            reveal_strlit("bucket_marked");
        },
        CounterId::BogonRefused => {
            reveal_strlit("bogon_refused");
        },
    }
}

/// No two counters have the same name, so a name finds the one counter that carries it.
pub proof fn the_names_are_distinct(a: CounterId, b: CounterId)
    requires
        a.label() == b.label(),
    ensures
        a == b,
{
    lemma_marks(a);
    lemma_marks(b);
}

/// The symbol the loader patches with the stripe width, in slots.
pub const COUNTER_STRIPE_SYMBOL: &'static str = "COUNTER_STRIPE";

/// Slots a stripe is rounded up to, so a stripe boundary never falls inside a cache line.
pub const COUNTER_STRIPE_SLOTS: u32 = 8;

/// Processors the counter map is allowed to be striped for: a dimensioning ceiling.
pub const MAX_CPUS: u32 = 512;

/// How the counter map is laid out, CPU-major: `index = cpu * stripe + slot`. Each processor has
/// a contiguous region it alone writes, which is the only reason the increment can stay
/// non-atomic.
#[derive(Clone, Copy, PartialEq, Eq, Debug, Structural)]
pub struct CounterLayout {
    /// Counter slots the agent reads: the named counters, then one per entry of the list.
    pub slots: u32,
    /// Slots between the start of one processor's stripe and the next, rounded to
    /// [`COUNTER_STRIPE_SLOTS`].
    pub stripe: u32,
    /// Processors the map is striped for, which is the possible count and not the online one.
    pub cpus: u32,
}

/// A slot count rounded up to a whole number of cache lines.
pub open spec fn rounded(slots: u32) -> int {
    (slots as int + 7) / 8 * 8
}

/// Where a layout puts a slot of a processor.
pub open spec fn flat_index(layout: CounterLayout, cpu: int, slot: int) -> int {
    cpu * layout.stripe + slot
}

/// Whether a machine has a layout for so many slots.
pub open spec fn has_layout(slots: u32, cpus: u32) -> bool {
    1 <= cpus <= MAX_CPUS && rounded(slots) * cpus <= u32::MAX
}

/// A machine has a layout where it has from one to 512 processors, and the map, a stripe of whole
/// cache lines for each, has no more entries than 32 bits count. One with fewer slots or fewer
/// processors then has one as well.
pub proof fn which_machines_have_a_layout(slots: u32, cpus: u32, fewer: u32, less: u32)
    ensures
        cpus == 0 || cpus > 512 ==> !has_layout(slots, cpus),
        1 <= cpus <= 512 && (slots + 7) * cpus <= u32::MAX ==> has_layout(slots, cpus),
        1 <= cpus && slots * cpus > u32::MAX ==> !has_layout(slots, cpus),
        has_layout(slots, cpus) && fewer <= slots && 1 <= less <= cpus ==> has_layout(fewer, less),
{
    let stripe = rounded(slots);
    assert(slots <= stripe <= slots + 7);
    assert(slots * cpus <= stripe * cpus <= (slots + 7) * cpus) by (nonlinear_arith)
        requires
            slots <= stripe <= slots + 7,
            cpus >= 0,
    ;
    if fewer <= slots && less <= cpus {
        assert(0 <= rounded(fewer) <= stripe);
        assert(rounded(fewer) * less <= stripe * cpus) by (nonlinear_arith)
            requires
                0 <= rounded(fewer) <= stripe,
                0 <= less <= cpus,
        ;
    }
}

impl CounterLayout {
    /// The invariant of a layout: a stripe of whole cache lines that holds the slots with less
    /// than one line to spare, for a machine inside the ceiling, and a map the kernel can count.
    pub open spec fn valid(self) -> bool {
        &&& 1 <= self.cpus <= MAX_CPUS
        &&& self.stripe == rounded(self.slots)
        &&& self.stripe * self.cpus <= u32::MAX
    }

    /// The layout for `slots` counter slots on a machine with `cpus` possible processors. `None`
    /// when the machine is past [`MAX_CPUS`] or has none, or when the map would have more
    /// entries than the kernel counts.
    pub fn new(slots: u32, cpus: u32) -> (layout: Option<Self>)
        ensures
            layout is Some <==> has_layout(slots, cpus),
            layout is Some <==> 1 <= cpus <= MAX_CPUS && rounded(slots) * cpus <= u32::MAX,
            layout matches Some(l) ==> l.valid() && l.slots == slots && l.cpus == cpus,
    {
        if cpus == 0 || cpus > MAX_CPUS {
            return None;
        }
        let stripe: u64 = (slots as u64 + 7) / 8 * 8;
        assert(stripe * cpus <= 0x1_0000_0000 * 512) by (nonlinear_arith)
            requires
                stripe <= 0x1_0000_0000,
                cpus <= 512,
        ;
        if stripe * cpus as u64 > u32::MAX as u64 {
            return None;
        }
        assert(stripe <= stripe * cpus) by (nonlinear_arith)
            requires
                cpus >= 1,
        ;
        Some(CounterLayout { slots, stripe: stripe as u32, cpus })
    }

    /// Entries the map is created with: every stripe, and nothing more.
    pub fn entries(&self) -> (entries: u32)
        requires
            self.stripe * self.cpus <= u32::MAX,
        ensures
            entries == self.stripe * self.cpus,
    {
        self.stripe * self.cpus
    }

    /// Bytes the mapping covers, before the kernel rounds it up to a page.
    pub fn bytes(&self) -> (bytes: u64)
        requires
            self.stripe * self.cpus <= u32::MAX,
        ensures
            bytes == self.stripe * self.cpus * 8,
    {
        self.entries() as u64 * 8
    }

    /// The flat index one processor writes one slot at.
    pub fn index(&self, cpu: u32, slot: u32) -> (index: u32)
        requires
            flat_index(*self, cpu as int, slot as int) <= u32::MAX,
        ensures
            index == flat_index(*self, cpu as int, slot as int),
    {
        assert(cpu * self.stripe >= 0) by (nonlinear_arith)
            requires
                cpu >= 0,
                self.stripe >= 0,
        ;
        cpu * self.stripe + slot
    }
}

/// A stripe is a whole number of cache lines, holds its slots, and wastes less than one line.
pub proof fn a_stripe_is_a_whole_number_of_cache_lines(layout: CounterLayout)
    requires
        layout.valid(),
    ensures
        layout.stripe % COUNTER_STRIPE_SLOTS == 0,
        layout.slots <= layout.stripe < layout.slots + COUNTER_STRIPE_SLOTS,
{
}

/// Each processor owns a contiguous region and no two of them overlap: an index inside a stripe
/// gives back the processor and the slot it came from, and lies inside the map.
pub proof fn every_stripe_is_disjoint(layout: CounterLayout, cpu: int, slot: int)
    requires
        layout.valid(),
        0 <= cpu < layout.cpus,
        0 <= slot < layout.stripe,
    ensures
        0 <= flat_index(layout, cpu, slot) < layout.stripe * layout.cpus,
        flat_index(layout, cpu, slot) / (layout.stripe as int) == cpu,
        flat_index(layout, cpu, slot) % (layout.stripe as int) == slot,
{
    let stripe = layout.stripe as int;
    let cpus = layout.cpus as int;
    assert(0 <= cpu * stripe + slot < stripe * cpus) by (nonlinear_arith)
        requires
            0 <= cpu < cpus,
            0 <= slot < stripe,
    ;
    vstd::arithmetic::div_mod::lemma_fundamental_div_mod_converse(
        cpu * stripe + slot,
        stripe,
        cpu,
        slot,
    );
}

} // verus!
