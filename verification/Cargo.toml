[package]
name = "embedding_search"
version = "0.1.0"
edition = "2021"
publish = false

[dependencies]
rmp-serde = "1"
serde = { version = "1", features = ["derive"] }
wasm-bindgen = "0.2"
web-sys = "0.3"
