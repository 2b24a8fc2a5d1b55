//! Keyed hashing for every index an attacker can influence.
//!
//! Two keyed hashes, and they are not interchangeable. [`MultiplyShift`] costs four
//! instructions, which is what the bucket index takes. [`SipHasher24`] is the one to reach for
//! wherever the key itself has to survive an attacker who sees outputs. [`fast_hash`] carries no
//! key and must never index anything an attacker can choose.

pub mod fast;
pub mod key;
pub mod multiply_shift;
pub mod siphash;

pub use fast::fast_hash;
pub use key::key_words;
pub use multiply_shift::MultiplyShift;
pub use siphash::SipHasher24;
