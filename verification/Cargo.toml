[package]
name = "enderecobr_rs"
version = "0.1.0"
edition = "2021"
publish = false

[dependencies]
rustc-hash = "=2.1.3"
serde = { version = "=1.0.229", features = ["derive"] }
serde_bytes = "=0.11.19"
strsim = "=0.11.1"
zstd = "=0.13.4"
postcard = { version = "=1.1.3", features = ["use-std"] }
rmp-serde = "=1.3.1"
clap = { version = "=4.6.7", features = ["derive"] }
arrow = { version = "=60.1.0", default-features = false }
parquet = { version = "=60.1.0", default-features = false, features = ["arrow"] }
