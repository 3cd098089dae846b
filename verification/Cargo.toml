[package]
name = "kurbo_se"
version = "0.1.0"
edition = "2021"
publish = false

[dependencies]
kurbo = { version = "0.13", features = ["serde"] }
serde = { version = "1", features = ["derive"] }
serde_json = "1"
wasm-bindgen = "0.2"
