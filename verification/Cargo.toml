[package]
name = "parquet_lite"
version = "0.1.0"
edition = "2021"
publish = false

[dependencies]
parquet2 = { version = "0.17", default-features = false, features = ["snappy"] }
wasm-bindgen = "0.2"
js-sys = "0.3"
serde = { version = "1", features = ["derive"] }
serde-wasm-bindgen = "0.6"
