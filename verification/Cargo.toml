[package]
name = "card_template"
version = "0.1.0"
edition = "2021"
publish = false

[dependencies]
blake3 = "*"
htmlescape = "*"
serde_json = "*"
wasm-bindgen = "*"
