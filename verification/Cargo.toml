[package]
name = "optimaimg"
version = "0.1.0"
edition = "2021"
publish = false

[dependencies]
image = { version = "0.24", default-features = false, features = ["png", "jpeg", "gif", "bmp"] }
imageproc = "0.23"
palette = "0.7"
pyo3 = { version = "0.20", features = ["extension-module", "abi3-py38"] }
