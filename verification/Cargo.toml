[package]
name = "docstring_parser"
version = "0.1.0"
edition = "2021"
publish = false

[dependencies]
pyo3 = { version = "0.20", features = ["extension-module"] }

[dev-dependencies]
textwrap = "0.16"
