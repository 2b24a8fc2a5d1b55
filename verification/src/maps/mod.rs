//! Reading the counters and the bucket bank, and writing the lists: everything but the system
//! calls.

pub mod bank;
pub mod batch;
pub mod blocklist;
pub mod counters;
pub mod elf;
pub mod lpm;
pub mod memlock;
pub mod mmap;

pub use counters::{counter_at, counter_layout, Counters, COUNTERS};
pub use memlock::memlock_bytes;
