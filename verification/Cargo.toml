[package]
name = "fast_query_parsers"
version = "0.1.0"
edition = "2021"
publish = false

[dependencies]
lazy_static = "1"
pyo3 = "*"
pythonize = "*"
regex = "1"
rustc-hash = "*"
serde_json = "1"
urlencoding = "2"
