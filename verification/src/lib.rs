//! The decisions of a packet filter that lives in two worlds: the per-packet arithmetic and
//! the tables an eBPF program reads, and the control logic that loads, feeds and watches it.

pub mod blocklist;
pub mod bucket;
pub mod bytes;
pub mod capability;
pub mod clock;
pub mod ctl;
pub mod fib;
pub mod hash;
pub mod loader;
pub mod maps;
pub mod netlink;
pub mod text;
pub mod ttl;
mod uapi;
pub mod wire;

pub use blocklist::{
    Class24, OaSlot, BLOCKLIST_TRIE_SYMBOL, CLASS24_BYTES, CLASS24_SYMBOL, OA_BYTES, OA_MAX_KEYS,
    OA_PROBES, OA_SLOTS, OA_TABLE_SYMBOL,
};
pub use bucket::{
    BankLayout, Bucket, Charge, Drain, Rate, BANK_SLOT_BYTES, BURST_MAX, DEFAULT_BANK_BUCKETS,
    DRAIN_FRACTION_BITS, SHARE_SCALE, UNITS_PER_BYTE,
};
pub use bytes::ByteOrder;
pub use hash::{fast_hash, key_words, MultiplyShift, SipHasher24};
pub use ttl::{Clock, Deadline};
pub use wire::{
    anomaly, setting, settings_word, Action, CounterId, CounterLayout, Family, FragState, LpmKey,
    LpmValue, PacketView, Scope, BUCKET_KEY_SYMBOLS, BUCKET_RATE_SYMBOLS, BUCKET_STALL_SYMBOL,
    COUNTER_STRIPE_SLOTS, COUNTER_STRIPE_SYMBOL, DEFAULT_SETTINGS, MAX_CPUS, MAX_OFFSET, NO_CUTOFF,
    OPERATOR_SETTINGS, SCOPE_MAX, SETTINGS_SYMBOL, SIGNATURE_VECTORS_ALL, SIGNATURE_VECTORS_SYMBOL,
    STAGE_CUTOFF_SHIFT, V4_MAPPED_PREFIX_BITS,
};
