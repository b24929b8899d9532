[package]
name = "sway"
version = "0.1.0"
edition = "2021"
publish = false

[dependencies]
bevy = { version = "=0.18.1", default-features = false }
serde = { version = "=1.0.229", features = ["derive"] }
serde_json = "=1.0.154"
rfd = "=0.17.2"
wasm-bindgen-futures = "=0.4.80"
