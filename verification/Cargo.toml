[package]
name = "maple_core"
version = "0.1.0"
edition = "2021"
publish = false

[dependencies]
chrono = { version = "0.4", features = ["serde"] }
itertools = "0.10"
serde = { version = "1", features = ["derive"] }
serde_json = "1"
rayon = "1"
once_cell = "1"
parking_lot = "0.12"
anyhow = "1"
tracing = "0.1"
