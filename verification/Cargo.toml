[package]
name = "wolfxl"
version = "0.1.0"
edition = "2021"
publish = false

[dependencies]
quick-xml = "0.37"
zip = { version = "2", default-features = false, features = ["deflate"] }
pyo3 = "0.23"
