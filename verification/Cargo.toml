[package]
name = "synth_core"
version = "0.1.0"
edition = "2021"
publish = false

[dependencies]
anyhow = "1"
chrono = { version = "0.4", default-features = false, features = ["std", "clock", "serde"] }
rand = "0.8"
serde = { version = "1", features = ["derive"] }
