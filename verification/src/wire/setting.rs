//! Policy bits, one word, fixed at load time.

use vstd::prelude::*;

verus! {

/// IP options are refused by default: they carry the source-routing family of attacks, and an
/// operator who needs them says so.
pub const ACCEPT_IP_OPTIONS: u32 = 0x01;

/// Echo request and reply follow the configuration, unlike the path MTU messages, which cross
/// unconditionally.
pub const DROP_ICMP_ECHO: u32 = 0x02;

/// Every other ICMP type.
pub const DROP_ICMP_OTHER: u32 = 0x04;

/// Later fragments carry no port, so they can never match a scope and are dropped by default.
pub const ALLOW_LATER_FRAGMENTS: u32 = 0x08;

/// Set by the loader and not by the operator: the reverse-path criterion is evaluated against
/// the routing table of the ingress interface.
pub const URPF_ENFORCE: u32 = 0x10;

/// Off by default: a signature counts its vector and lets the packet through until an operator
/// arms it.
pub const ENFORCE_SIGNATURES: u32 = 0x20;

/// Off by default, for the same reason as the signatures.
pub const ENFORCE_BUCKETS: u32 = 0x40;

/// Tag the excess and let it reach the stack rather than dropping it. Set by the loader only
/// when the metadata capability answers yes.
pub const MARK_OVER_BUDGET: u32 = 0x80;

} // verus!
