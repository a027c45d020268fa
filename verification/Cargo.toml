[package]
name = "egna_network"
version = "0.1.0"
edition = "2021"
publish = false

[dependencies]
bytes = "1"
crc32fast = "1"
rand = "0.8"
tokio = { version = "1", features = ["net", "time", "rt", "rt-multi-thread", "sync"] }
