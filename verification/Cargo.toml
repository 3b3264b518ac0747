[package]
name = "paper_ecash"
version = "0.1.0"
edition = "2021"
publish = false

[dependencies]
base64 = "=0.22.1"
bech32 = "=0.11.1"
k256 = { version = "=0.13.4", features = ["ecdsa"] }
hex = "=0.4.3"
chrono = { version = "=0.4.45", features = ["serde"] }
uuid = { version = "=1.29.1", features = ["v4", "serde"] }
serde = { version = "=1.0.229", features = ["derive"] }
serde_json = "=1.0.154"
thiserror = "=2.0.21"
gloo-net = { version = "=0.6.0", features = ["http", "json"] }
web-sys = { version = "=0.3.107", features = ["Window", "Storage"] }
js-sys = "=0.3.107"
wasm-bindgen = "=0.2.130"
wasm-bindgen-futures = "=0.4.80"
