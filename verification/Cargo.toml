[package]
name = "core_engine"
version = "0.1.0"
edition = "2021"
publish = false

[dependencies]
serde = { version = "1", features = ["derive"] }
serde_json = "1"
rand = "0.8"
rayon = "1"
pyo3 = "0.22"
arc-swap = "1"
