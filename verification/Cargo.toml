[package]
name = "hank"
version = "0.1.0"
edition = "2021"
publish = false

[dependencies]
regex-lite = "0.1"
serde_json = "1"
wasm-bindgen = "0.2"
js-sys = "0.3"
