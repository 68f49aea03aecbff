[package]
name = "geyser_fanout"
version = "0.1.0"
edition = "2021"
publish = false

[dependencies]
anyhow = "1"
bytes = "1"
bytesize = "2"
crossbeam-channel = "0.5"
lazy_static = "1"
log = "0.4"
prometheus = { version = "0.14", default-features = false }
prost = "0.14"
prost-types = "0.14"
rayon = "1"
serde_json = "1"
solana-clock = "*"
solana-pubkey = "*"
thiserror = "2"
tokio = { version = "1", features = ["fs", "macros", "net", "rt-multi-thread", "sync", "time"] }
tokio-stream = { version = "0.1", features = ["net"] }
tokio-util = { version = "0.7", features = ["rt"] }
tonic = { version = "0.14", features = ["tls-ring"] }
tonic-health = "0.14"
