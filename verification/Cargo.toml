[package]
name = "event_codec"
version = "0.1.0"
edition = "2021"
publish = false

[dev-dependencies]
serde_json = "1"
