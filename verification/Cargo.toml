[package]
name = "ecsdb"
version = "0.1.0"
edition = "2021"
publish = false

[dependencies]
bincode = "1.3"
crc32fast = "1"
zstd = "0.13"
serde = { version = "1", features = ["derive"] }
serde_json = "1"
serde-value = "0.7"
toml = "0.8"
tokio = { version = "1", features = ["rt", "rt-multi-thread", "sync", "net", "io-util", "time", "macros", "fs"] }
uuid = { version = "1", features = ["v4", "serde"] }
thiserror = "1"
clap = { version = "4", features = ["derive"] }
bytes = "1"
