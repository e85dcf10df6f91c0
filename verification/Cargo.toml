[package]
name = "alice_cache"
version = "0.2.0"
edition = "2021"
publish = false

[dependencies]
ahash = "0.8"
hashbrown = "*"
parking_lot = "0.12"
alice-analytics = "*"
alice-crypto = "*"
pyo3 = "*"
numpy = "*"
