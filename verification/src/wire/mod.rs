//! Everything that crosses the kernel and userspace boundary.

pub mod anomaly;
pub mod counters;
pub mod keys;
pub mod packet;
pub mod setting;
pub mod settings;
pub mod verdict;

pub use counters::{
    CounterId, CounterLayout, COUNTER_STRIPE_SLOTS, COUNTER_STRIPE_SYMBOL, MAX_CPUS,
};
pub use keys::{LpmKey, V4_MAPPED_PREFIX_BITS};
pub use packet::{Family, FragState, PacketView, MAX_OFFSET};
pub use settings::{
    settings_word, BUCKET_KEY_SYMBOLS, BUCKET_RATE_SYMBOLS, BUCKET_STALL_SYMBOL, DEFAULT_SETTINGS,
    NO_CUTOFF, OPERATOR_SETTINGS, SETTINGS_SYMBOL, SIGNATURE_VECTORS_ALL, SIGNATURE_VECTORS_SYMBOL,
    STAGE_CUTOFF_SHIFT,
};
pub use verdict::{Action, LpmValue, Scope, SCOPE_MAX};
