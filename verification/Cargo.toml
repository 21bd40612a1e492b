[package]
name = "turbodiff"
version = "0.1.0"
edition = "2021"
publish = false

[dependencies]
indexmap = "2"
pyo3 = "0.22"
serde_json = "1"
