[package]
name = "fast-bpe-rs"
version = "0.6.1"
edition = "2021"
publish = false

[dependencies]
fancy-regex = "*"
hashbrown = "*"
ahash = "*"
log = "*"
pyo3 = "*"
pyo3-log = "*"
parquet = { version = "*", default-features = false }
hf-hub = { version = "*", default-features = false, features = ["ureq"] }
