[package]
name = "napkin_math"
version = "0.1.0"
edition = "2021"
publish = false

[dependencies]
lz4_flex = "0.11"
crc32fast = "1"
sha2 = "0.10"
rand = "0.8"
serde = { version = "1", features = ["derive"] }
serde_json = "1"
bincode = "1"
toml = "0.8"
core_affinity = "0.8"
libc = "0.2"
perf-event = "0.4"
