[package]
name = "seerdb"
version = "0.1.0"
edition = "2021"
publish = false

[dependencies]
crc32c = "*"
twox-hash = "*"
foldhash = "*"
crossbeam-skiplist = "*"
bytes = "*"
thiserror = "*"
anyhow = "*"
smartcore = "*"

[dev-dependencies]
tempfile = "*"
