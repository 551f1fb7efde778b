[package]
name = "epubparse"
version = "0.1.0"
edition = "2021"
publish = false

[dependencies]
regex = "=1.13.1"
serde = { version = "=1.0.229", features = ["derive"] }
serde-wasm-bindgen = "=0.6.5"
wasm-bindgen = "=0.2.129"
xmltree = { version = "=0.10.3", features = ["attribute-order"] }
zip = { version = "=0.6.6", default-features = false, features = ["deflate"] }
