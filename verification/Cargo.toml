[package]
name = "vector_search"
version = "0.1.0"
edition = "2021"
publish = false

[dependencies]
rayon = "1"
bincode = "1.3"
serde = { version = "1", features = ["derive"] }
pyo3 = { version = "0.22", features = ["extension-module"] }
