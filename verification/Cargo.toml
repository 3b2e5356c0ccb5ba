[package]
name = "contextstore"
version = "0.1.0"
edition = "2021"
publish = false

[dependencies]
anyhow = "=1.0.104"
chrono = { version = "=0.4.45", default-features = false, features = ["clock", "std"] }
clap = { version = "=4.6.7", features = ["derive", "env"] }
crossbeam-channel = "=0.5.17"
hyper = { version = "=0.14.32", features = ["server", "tcp", "http1", "runtime"] }
io-uring = "=0.6.4"
libc = "=0.2.191"
libloading = "=0.8.9"
lru = { version = "=0.12.5", default-features = false }
parking_lot = "=0.12.5"
prometheus = { version = "=0.13.4", default-features = false }
prost = { version = "=0.13.5", default-features = false }
rdma-sys = "*"
redis = { version = "=0.27.6", features = ["tokio-comp"] }
serde = { version = "=1.0.229", features = ["derive"] }
serde_json = "=1.0.154"
thiserror = "=1.0.69"
tokio = { version = "=1.54.1", features = ["rt-multi-thread", "macros", "time", "sync"] }
toml = "=0.8.23"
tonic = { version = "=0.12.3", default-features = false }
tracing = "=0.1.44"
tracing-subscriber = { version = "=0.3.23", features = ["env-filter"] }
twox-hash = { version = "=1.6.3", default-features = false }
