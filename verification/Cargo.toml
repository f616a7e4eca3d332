[package]
name = "maze"
version = "0.1.0"
edition = "2021"
publish = false

[dependencies]
turborand = { version = "=0.10.1", features = ["atomic"] }
bevy = { version = "0.13", default-features = false }
