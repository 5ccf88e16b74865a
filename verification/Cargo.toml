[package]
name = "exaloglog"
version = "0.1.0"
edition = "2021"
publish = false

[dependencies]
xxhash-rust = { version = "0.8", features = ["xxh3"] }
ahash = "0.8"
komihash = "*"
polymur-hash = "*"
t1ha = "*"
tab-hash = "*"
ultraloglog = "*"
wyhash = "*"
