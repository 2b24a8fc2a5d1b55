//! Which kernel capabilities this machine has, and the reference path each absent one falls back
//! to without changing the response tier that is reached.

pub mod matrix;
pub mod probe;

pub use matrix::{Capability, Detected};
