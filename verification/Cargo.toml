[package]
name = "stella-bsp-reader"
version = "0.1.0"
edition = "2021"
publish = false

[dependencies]
pyo3 = "0.22"
