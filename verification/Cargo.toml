[package]
name = "logkv"
version = "0.1.0"
edition = "2021"
publish = false

[dependencies]
lazy_static = "1"
once_cell = "1"
pyo3 = { version = "0.23", features = ["abi3-py38", "extension-module"] }
