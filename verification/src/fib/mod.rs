//! Whether strict reverse-path filtering decides anything on an interface, and whether that
//! answer has moved since the program was loaded.

pub mod criterion;
pub mod netlink;
pub mod watcher;

pub use criterion::{discriminates, Discrimination, Family, Route};
pub use watcher::{RouteWatcher, DEFAULT_HOLD};
