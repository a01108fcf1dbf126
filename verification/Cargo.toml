[package]
name = "safe_once_map"
version = "0.1.0"
edition = "2021"
publish = false

[dependencies]
lock_api = "*"
parking_lot = "*"
cache-padded = "*"
colosseum = "*"
tokio = { version = "*", features = ["rt", "rt-multi-thread", "time", "sync", "macros"] }
rand = "*"
dashmap = "*"
chashmap = "*"
concurrent-map = "*"
itertools = "*"
linreg = "*"
