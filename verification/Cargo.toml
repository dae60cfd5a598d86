[package]
name = "icfs"
version = "0.1.0"
edition = "2021"
publish = false

[dependencies]
fuser = { version = "=0.14.0", default-features = false }
libc = "=0.2.191"
