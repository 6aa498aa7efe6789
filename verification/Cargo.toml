[package]
name = "netscan_core"
version = "0.1.0"
edition = "2021"
publish = false

[dependencies]
serde = { version = "1", features = ["derive"] }
tokio = { version = "1", features = ["net", "rt", "rt-multi-thread", "sync", "time"] }
memmap2 = "0.9"
rayon = "1"
ipnetwork = "0.20"
