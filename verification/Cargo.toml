[package]
name = "zsqlite"
version = "0.1.0"
edition = "2021"
publish = false

[dependencies]
blake3 = "1"
getrandom = "0.3"
tempfile = "3"
thiserror = "2"
zstd = "0.13"
