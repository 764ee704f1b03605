[package]
name = "pl"
version = "0.1.0"
edition = "2021"
publish = false

[dependencies]
bevy = { version = "0.12", default-features = false }
nalgebra = "=0.35.0"
ordered-float = "=5.5.0"
rand = "=0.8.8"
