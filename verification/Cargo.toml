[package]
name = "tsqc"
version = "0.1.0"
edition = "2021"
publish = false

[dependencies]
bitvec = "1"
rand = "0.8"
rand_chacha = "0.3"
pyo3 = { version = "0.25", features = ["extension-module"] }
