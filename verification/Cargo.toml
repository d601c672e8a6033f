[package]
name = "chan_distill"
version = "0.1.0"
edition = "2021"
publish = false

[dependencies]
anyhow = "1"
chrono = { version = "=0.4.45", default-features = false, features = ["std", "alloc"] }
clap = { version = "4", default-features = false, features = ["std", "derive", "help", "usage"] }
csv = "=1.4.0"
czsc-core = "=1.0.0-rc.8"
env_logger = { version = "0.11", default-features = false }
glob = "0.3"
log = "0.4"
ort = { version = "2.0.0-rc.10", default-features = false, features = ["std", "load-dynamic"] }
polars = { version = "0.52", default-features = false, features = ["parquet"] }
rand = "0.8"
serde = { version = "1", features = ["derive"] }
serde_json = "1"
