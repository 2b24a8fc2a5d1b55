[package]
name = "lorica"
version = "0.1.0"
edition = "2021"
publish = false

[dependencies]
aya = "0.14"
libc = "=0.2.191"
object = "=0.40.0"
thiserror = "=2.0.21"
