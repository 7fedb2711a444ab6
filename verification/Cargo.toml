[package]
name = "fluxpack"
version = "0.4.0"
edition = "2021"
publish = false

[dependencies]
ahash = "0.8"
zstd = "0.13"
serde_json = "1"
thiserror = "1"
rayon = "1"
pyo3 = "0.22"
