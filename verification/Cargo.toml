[package]
name = "pente"
version = "0.1.0"
edition = "2021"
publish = false

[dependencies]
ndarray = { version = "0.15", features = ["serde"] }
rand = "0.8"
serde = { version = "1", features = ["derive"] }
bincode = "1.3"
pyo3 = "0.20"
