[package]
name = "tui2web"
version = "0.1.0"
edition = "2021"
publish = false

[dependencies]
ratatui = { version = "0.26", default-features = false }
wasm-bindgen = "0.2"
console_error_panic_hook = "0.1"
