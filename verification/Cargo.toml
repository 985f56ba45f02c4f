[package]
name = "audio_fetch"
version = "0.1.0"
edition = "2021"
publish = false

[dependencies]
tokio = { version = "1", features = ["sync", "rt", "macros"] }
bytes = "1"
tempfile = "3"
