//! Putting the program on an interface, and finding out what is there already.

pub mod attach;
pub mod hook_probe;
