[package]
name = "ip_core"
version = "0.1.0"
edition = "2021"
publish = false

[dependencies]
pitch-detection = "0.3"
serde = { version = "1", features = ["derive"] }
serde-wasm-bindgen = "0.6"
wasm-bindgen = "0.2"
