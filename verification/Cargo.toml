[package]
name = "autonomi_webrtc"
version = "0.1.0"
edition = "2021"
publish = false

[dependencies]
anyhow = "1"
blake3 = "1"
bytes = "1"
clap = { version = "4", default-features = false, features = ["std", "derive", "help"] }
futures = { version = "0.3", default-features = false, features = ["std"] }
js-sys = "0.3"
libp2p = { version = "0.56", default-features = false, features = ["tokio", "identify", "macros", "ed25519"] }
libp2p-stream = { version = "0.4.0-alpha", default-features = false }
rand = "0.8"
rmp-serde = "1"
rustls = { version = "0.23", default-features = false, features = ["aws_lc_rs", "std"] }
self_encryption = "0.36"
tokio = { version = "1", default-features = false, features = ["fs", "macros", "rt-multi-thread", "signal"] }
tracing = { version = "0.1", default-features = false, features = ["std"] }
tracing-subscriber = { version = "0.3", default-features = false, features = ["env-filter", "fmt"] }
wasm-bindgen = "0.2"
