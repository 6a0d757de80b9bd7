[package]
name = "trestle"
version = "0.1.0"
edition = "2021"
publish = false

[dependencies]
unescaper = "*"
serde = { version = "1", features = ["derive"] }
serde-wasm-bindgen = "0.6"
wasm-bindgen = "0.2"
console_error_panic_hook = "0.1"
