[package]
name = "observer"
version = "0.1.0"
edition = "2021"
publish = false

[dependencies]
arrow-array = "=59.3.2"
arrow-schema = "=59.3.2"
async-trait = "*"
axum = "=0.8.9"
base64 = "=0.22.1"
blake3 = "=1.8.7"
bytes = "*"
crc32c = "=0.6.9"
datafusion-sql = { version = "=55.2.0", default-features = false }
futures = "*"
parquet = { version = "=59.3.2", default-features = false, features = ["arrow", "snap"] }
prost = "=0.14.4"
serde_json = "=1.0.154"
tokio = { version = "*", features = ["rt-multi-thread", "sync", "time", "macros"] }
tonic = "=0.14.9"
