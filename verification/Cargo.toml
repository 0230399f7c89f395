[package]
name = "ben_process"
version = "0.1.0"
edition = "2021"
publish = false

[dependencies]
xxhash-rust = { version = "=0.8.19", features = ["xxh3"] }
rand = "=0.10.3"
binary-ensemble = "=2.0.0"
serde = { version = "=1.0.229", features = ["derive"] }
serde_json = "=1.0.154"
clap = { version = "=4.6.7", features = ["derive"] }
env_logger = "=0.11.11"
log = "=0.4.35"
indicatif = "=0.18.6"
rayon = "=1.12.0"
fastrand = "=2.5.0"
thiserror = "=2.0.21"
geo = "=0.33.1"
geo-types = "=0.7.20"
geo-traits = "=0.3.0"
wkb = "=0.9.3"
arrow-array = "=59.3.2"
parquet = { version = "=59.3.2", default-features = false, features = ["arrow", "snap", "brotli"] }
geoparquet = "=0.9.0"
proj = "=0.31.0"
pyo3 = "=0.30.1"
