[package]
name = "deadlock_api_ingest"
version = "0.1.0"
edition = "2021"
publish = false

[dependencies]
memchr = "2"
dashmap = "6"
ureq = { version = "3", features = ["json"] }
serde = { version = "1", features = ["derive"] }
anyhow = "1"
tracing = "0.1"
pcap = "2"
notify = "8"
steamlocate = "2"
dirs = "6"
walkdir = "2"
