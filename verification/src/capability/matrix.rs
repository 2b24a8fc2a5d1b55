//! One row per capability: what it buys, and the path that reaches the same response tier
//! without it.

use vstd::prelude::*;

verus! {

/// A kernel capability the program takes advantage of where it is there.
#[derive(Clone, Copy, Debug, PartialEq, Eq, Structural)]
pub enum Capability {
    CpumapGro,
    BpfQdisc,
    XdpPullData,
    MultiByteMeta,
    RehashFlows,
    BpfArena,
    QueueLeasing,
}

/// Whether a capability is there, and what is done without it.
#[derive(Clone, Copy, Debug)]
pub struct Detected {
    pub cap: Capability,
    pub available: bool,
    pub fallback: &'static str,
}

/// The row of a capability.
#[derive(Clone, Copy, Debug)]
pub struct Entry {
    pub cap: Capability,
    /// Also the metric label, so it cannot change shape once published.
    pub name: &'static str,
    /// Release that carries the capability upstream, as `(major, minor)`.
    pub since: (u32, u32),
    /// A kernel symbol the capability cannot exist without. Preferred over `since`: it survives
    /// a distribution backport, and it catches a build where the config option is off. `None`
    /// where no symbol tells the capability apart.
    pub symbol: Option<&'static str>,
    /// The path taken without the capability. It reaches the same response tier.
    pub fallback: &'static str,
}

impl Capability {
    /// Every capability, in matrix order.
    pub const ALL: [Capability; 7] = [
        Self::CpumapGro,
        Self::BpfQdisc,
        Self::XdpPullData,
        Self::MultiByteMeta,
        Self::RehashFlows,
        Self::BpfArena,
        Self::QueueLeasing,
    ];

    /// The metric label.
    pub open spec fn label(self) -> Seq<char> {
        match self {
            Capability::CpumapGro => "cpumap_gro"@,
            Capability::BpfQdisc => "bpf_qdisc"@,
            Capability::XdpPullData => "bpf_xdp_pull_data"@,
            Capability::MultiByteMeta => "multi_byte_meta"@,
            Capability::RehashFlows => "rehash_flows"@,
            Capability::BpfArena => "bpf_arena"@,
            Capability::QueueLeasing => "queue_leasing"@,
        }
    }

    /// The release that carries the capability upstream.
    pub open spec fn release(self) -> (u32, u32) {
        match self {
            Capability::CpumapGro => (6, 15),
            Capability::BpfQdisc => (6, 16),
            Capability::XdpPullData => (6, 18),
            Capability::MultiByteMeta => (6, 19),
            Capability::RehashFlows => (6, 19),
            Capability::BpfArena => (6, 9),
            Capability::QueueLeasing => (7, 1),
        }
    }

    /// The kernel symbol the capability cannot exist without, where one tells it apart.
    pub open spec fn evidence(self) -> Option<Seq<char>> {
        match self {
            Capability::BpfQdisc => Some("bpf_Qdisc_ops"@),
            Capability::XdpPullData => Some("bpf_xdp_pull_data"@),
            Capability::BpfArena => Some("arena_map_ops"@),
            _ => None,
        }
    }

    /// The path taken without the capability.
    pub open spec fn reference_path(self) -> Seq<char> {
        match self {
            Capability::CpumapGro => "no cpumap at all: scrubbing stays on the ingress core. Before 6.15 cpumap breaks TCP aggregation, which costs more than the jitter it isolates"@,
            Capability::BpfQdisc => "tier 1 stays an observed no-op: marked in metrics, never enforced, and the climb to tier 2 keeps the same temporal criteria. Never a direct jump to tier 2, which would be a different verdict per kernel"@,
            Capability::XdpPullData => "the bounded parsing depth is one policy on every kernel; without the kfunc that depth costs more to reach, it is not reduced"@,
            Capability::MultiByteMeta => "the verdict stays in the dataplane instead of riding to the stack"@,
            Capability::RehashFlows => "manual RSS tuning against an attack that saturates one RX queue"@,
            Capability::BpfArena => "batch reads, then a hand-sharded mmappable array. Both are agent-side cost, so the tier reached is untouched either way"@,
            Capability::QueueLeasing => "the dataplane runs as a DaemonSet on the host rather than in the container"@,
        }
    }

    /// The row of a capability. Reached through an exhaustive match: a capability added without
    /// a reference path stops compiling here.
    pub fn row(self) -> (entry: Entry)
        ensures
            entry.cap == self,
            entry.name@ == self.label(),
            entry.since == self.release(),
            match entry.symbol {
                Some(symbol) => self.evidence() == Some(symbol@),
                None => self.evidence() is None,
            },
            entry.fallback@ == self.reference_path(),
    {
        match self {
            Self::CpumapGro => Entry {
                cap: self,
                name: "cpumap_gro",
                since: (6, 15),
                symbol: None,
                fallback: "no cpumap at all: scrubbing stays on the ingress core. Before 6.15 cpumap breaks TCP aggregation, which costs more than the jitter it isolates",
            },
            Self::BpfQdisc => Entry {
                cap: self,
                name: "bpf_qdisc",
                since: (6, 16),
                symbol: Some("bpf_Qdisc_ops"),
                fallback: "tier 1 stays an observed no-op: marked in metrics, never enforced, and the climb to tier 2 keeps the same temporal criteria. Never a direct jump to tier 2, which would be a different verdict per kernel",
            },
            Self::XdpPullData => Entry {
                cap: self,
                name: "bpf_xdp_pull_data",
                since: (6, 18),
                symbol: Some("bpf_xdp_pull_data"),
                fallback: "the bounded parsing depth is one policy on every kernel; without the kfunc that depth costs more to reach, it is not reduced",
            },
            Self::MultiByteMeta => Entry {
                cap: self,
                name: "multi_byte_meta",
                since: (6, 19),
                symbol: None,
                fallback: "the verdict stays in the dataplane instead of riding to the stack",
            },
            Self::RehashFlows => Entry {
                cap: self,
                name: "rehash_flows",
                since: (6, 19),
                symbol: None,
                fallback: "manual RSS tuning against an attack that saturates one RX queue",
            },
            Self::BpfArena => Entry {
                cap: self,
                name: "bpf_arena",
                since: (6, 9),
                symbol: Some("arena_map_ops"),
                fallback: "batch reads, then a hand-sharded mmappable array. Both are agent-side cost, so the tier reached is untouched either way",
            },
            Self::QueueLeasing => Entry {
                cap: self,
                name: "queue_leasing",
                since: (7, 1),
                symbol: None,
                fallback: "the dataplane runs as a DaemonSet on the host rather than in the container",
            },
        }
    }
}

/// Which release brought which capability, and which of them a symbol tells.
pub proof fn which_release_brought_which_capability(cap: Capability, major: u32, minor: u32)
    ensures
        cap.release() == (major, minor) ==> (major == 6 && 9 <= minor <= 19) || (major == 7 && minor
            == 1),
        cap.release() == (6u32, 9u32) <==> cap == Capability::BpfArena,
        cap.release() == (6u32, 15u32) <==> cap == Capability::CpumapGro,
        cap.release() == (6u32, 16u32) <==> cap == Capability::BpfQdisc,
        cap.release() == (6u32, 18u32) <==> cap == Capability::XdpPullData,
        cap.release() == (6u32, 19u32) <==> cap == Capability::MultiByteMeta || cap
            == Capability::RehashFlows,
        cap.release() == (7u32, 1u32) <==> cap == Capability::QueueLeasing,
        cap.evidence() is Some <==> cap == Capability::BpfQdisc || cap == Capability::XdpPullData || cap
            == Capability::BpfArena,
{
}

/// No two capabilities share a label, which is what a metric is found by.
pub proof fn the_labels_are_distinct(a: Capability, b: Capability)
    requires
        a.label() == b.label(),
    ensures
        a == b,
{
    reveal_strlit("cpumap_gro");
    reveal_strlit("bpf_qdisc");
    reveal_strlit("bpf_xdp_pull_data");
    reveal_strlit("multi_byte_meta");
    reveal_strlit("rehash_flows");
    reveal_strlit("bpf_arena");
    reveal_strlit("queue_leasing");
    assert("cpumap_gro"@.len() == 10 && "bpf_qdisc"@.len() == 9 && "bpf_xdp_pull_data"@.len() == 17);
    assert("multi_byte_meta"@.len() == 15 && "rehash_flows"@.len() == 12);
    assert("bpf_arena"@.len() == 9 && "queue_leasing"@.len() == 13);
    assert("bpf_qdisc"@[4] == 'q');
    assert("bpf_arena"@[4] == 'a');
}

} // verus!
