[package]
name = "obsidian"
version = "0.1.0"
edition = "2021"
publish = false

[dependencies]
anyhow = "1"
async-trait = "0.1"
byteorder = "1"
futures = "0.3"
log = "0.4"
priority-queue = "2"
rand = "0.9"
tokio = { version = "1", features = ["io-util", "macros", "rt", "rt-multi-thread", "sync", "time"] }
uuid = { version = "1", features = ["v4"] }
