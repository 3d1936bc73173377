[package]
name = "arcux"
version = "0.1.0"
edition = "2021"
publish = false

[dependencies]
crc32c = "=0.6.9"
crossbeam-skiplist = "=0.1.3"
crossbeam-channel = "=0.5.17"
parking_lot = "=0.12.5"
thiserror = "=1.0.69"
libc = "=0.2.191"
tokio = { version = "=1.54.1", features = ["net", "rt-multi-thread", "sync", "time", "macros", "signal"] }
tonic = { version = "*", default-features = false, features = ["channel"] }
