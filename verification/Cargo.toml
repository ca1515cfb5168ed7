[package]
name = "rust-hnsw"
version = "0.1.0"
edition = "2021"
publish = false

[dependencies]
rand = "*"
serde = { version = "1", features = ["derive"] }
serde_json = "1"
wasm-bindgen = "*"
js-sys = "*"
serde-wasm-bindgen = "*"
