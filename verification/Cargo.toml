[package]
name = "ozd"
version = "0.1.0"
edition = "2021"
publish = false

[dependencies]
abao = "*"
anyhow = "1"
axum = "0.8"
crc32fast = "1"
hmac = "0.12"
libc = "0.2"
parking_lot = "0.12"
redb = "2"
reed-solomon-erasure = "6"
serde = { version = "1", features = ["derive"] }
serde_json = "1"
sha2 = "0.10"
thiserror = "2"
tokio = { version = "1", features = ["full"] }
toml = "0.8"
tracing = "0.1"
tracing-subscriber = { version = "0.3", features = ["env-filter"] }
xxhash-rust = { version = "0.8", features = ["xxh3"] }
zstd = "0.13"

[dev-dependencies]
tempfile = "3"
