[package]
name = "bigserve"
version = "0.1.0"
edition = "2021"
publish = false

[dependencies]
anyhow = "1"
bincode = "2"
hdrhistogram = "7"
lru = "0.13"
primitive-types = "0.13"
quinn = "0.11"
rand = "0.9"
rand_distr = "0.5"
reed-solomon-simd = "3"
rocksdb = "0.23"
sha2 = "0.10"
tempfile = "3"
thiserror = "2"
tokio = { version = "1", features = ["full"] }
tokio-util = { version = "0.7", features = ["rt"] }
tracing = "0.1"
