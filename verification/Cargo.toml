[package]
name = "ruranges"
version = "0.1.0"
edition = "2021"
publish = false

[dependencies]
radsort = "0.1"
rustc-hash = "2"
pyo3 = { version = "*", features = ["extension-module", "abi3-py39"] }
numpy = "*"
polars = { version = "*", default-features = false, features = ["csv", "dtype-categorical"] }
rust-htslib = { version = "*", default-features = false }
