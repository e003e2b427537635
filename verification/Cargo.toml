[package]
name = "nonogram"
version = "0.1.0"
edition = "2021"
publish = false

[dependencies]
fancy-regex = "0.11"
gloo-console = "0.2"
gloo-net = "0.3"
serde = { version = "1", features = ["derive"] }
serde-wasm-bindgen = "0.5"
wasm-bindgen-futures = "0.4"
yew = { version = "0.20", features = ["csr"] }
