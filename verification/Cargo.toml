[package]
name = "mill_core"
version = "0.1.0"
edition = "2021"
publish = false

[dependencies]
glam = "0.29"
serde = { version = "1", features = ["derive"] }
serde_json = "1"
wasm-bindgen = "0.2"
console_error_panic_hook = "0.1"
