[package]
name = "justdb"
version = "0.1.0"
edition = "2021"
publish = false

[dependencies]
bincode = "2"
blake3 = "1"
bytes = "1"
clap = { version = "4", features = ["derive"] }
crc32fast = "1"
crossbeam-channel = "0.5"
lz4_flex = "0.11"
memmap2 = "0.9"
parking_lot = "0.12"
rand = "0.9"
rmp-serde = "1"
serde = { version = "1", features = ["derive"] }
thiserror = "2"
tokio = { version = "1", features = ["macros", "rt-multi-thread", "sync", "time"] }
tracing = "0.1"
tracing-subscriber = { version = "0.3", features = ["env-filter"] }
zstd = "0.13"
