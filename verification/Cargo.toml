[package]
name = "tiny_lsm"
version = "0.1.0"
edition = "2021"
publish = false

[dependencies]
crc32fast = "*"
log = "0.4"
zstd = "*"
