[package]
name = "libtext"
version = "0.1.0"
edition = "2021"
publish = false

[dependencies]
unicode-width = "*"
pyo3 = "*"
