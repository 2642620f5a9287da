[package]
name = "raftify"
version = "0.1.0"
edition = "2021"
publish = false

[dependencies]
clap = "3.2"
pyo3 = { version = "0.20", features = ["extension-module", "abi3-py38"] }
pythonize = "0.20"
serde = { version = "1", features = ["derive"] }
slog = "2"
slog-async = "2"
slog-term = "2"
tokio = { version = "1", features = ["rt-multi-thread", "macros", "time"] }
tonic = "0.9"
