[package]
name = "mysticeti_core"
version = "0.1.0"
edition = "2021"
publish = false

[dependencies]
bincode = "1.3"
clap = { version = "4", features = ["derive"] }
color-eyre = "0.6"
eyre = "0.6"
futures = "0.3"
parking_lot = "0.12"
rand = "0.8"
serde = { version = "1", features = ["derive"] }
serde_json = "1"
tokio = { version = "1", features = ["sync", "process", "rt-multi-thread", "macros"] }
