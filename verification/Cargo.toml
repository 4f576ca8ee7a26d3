[package]
name = "knn"
version = "0.1.0"
edition = "2021"
publish = false

[dependencies]
rayon = "1"
wide = "*"
pyo3 = "0.23"
numpy = "0.23"
