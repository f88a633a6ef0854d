[package]
name = "rosu_replay"
version = "0.1.0"
edition = "2021"
publish = false

[dependencies]
base64 = "*"
chrono = "*"
lzma-rs = "*"
serde = { version = "*", features = ["derive"] }
thiserror = "*"
wasm-bindgen = "*"
console_error_panic_hook = "*"
