[package]
name = "forst_rs"
version = "0.1.0"
edition = "2021"
publish = false

[dependencies]
arc-swap = "1"
arrow = { version = "*", default-features = false }
crc32fast = "1"
thiserror = "1"
tracing = "0.1"
