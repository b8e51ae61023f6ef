[package]
name = "fold_rs"
version = "0.1.0"
edition = "2021"
publish = false

[dependencies]
bytes = "1"
crc32fast = "1"
memmap2 = "0.9"
rand = "*"
thiserror = "2"

[dev-dependencies]
tempfile = "3"
