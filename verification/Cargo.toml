[package]
name = "cobs_codec_rs"
version = "1.3.0"
edition = "2021"
publish = false

[dependencies]
serde = { version = "1", features = ["derive"] }
