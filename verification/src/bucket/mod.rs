//! Leaky-bucket arithmetic: `c <- max(c - rho*dt, 0) + size`.
//!
//! No sketch and no periodic reset. A bucket that stops receiving simply drains to zero.

pub mod bank;
pub mod leaky;
pub mod laws;

pub use bank::{BankLayout, BANK_SLOT_BYTES, DEFAULT_BANK_BUCKETS, SHARE_SCALE};
pub use leaky::{Bucket, Charge, Drain, Rate, BURST_MAX, DRAIN_FRACTION_BITS, UNITS_PER_BYTE};
