[package]
name = "ebpf_monitor"
version = "0.1.0"
edition = "2021"
publish = false

[dependencies]
blake3 = "=1.8.7"
serde = { version = "=1.0.229", features = ["derive"] }
serde_json = "=1.0.154"
toml = "=1.1.8"
automerge = "=0.12.0"
chrono = "=0.4.45"
anyhow = "=1.0.104"
thiserror = "=2.0.21"
parking_lot = "=0.12.5"
libc = "=0.2.191"
log = "=0.4.35"
env_logger = "=0.11.11"
aya = "=0.13.1"
plain = "=0.2.3"
