[package]
name = "klattsch"
version = "0.1.0"
edition = "2021"
publish = false

[dependencies]
unicode-normalization = "0.1"
serde = { version = "1", features = ["derive"] }
serde_json = { version = "1", features = ["preserve_order"] }
rtrb = "0.3"
wasm-bindgen = "0.2"
serde-wasm-bindgen = "0.6"
