[package]
name = "hyverk"
version = "0.1.0"
edition = "2021"
publish = false

[dependencies]
axum = { version = "=0.8.9", features = ["ws"] }
base64 = "=0.22.1"
candle-core = "=0.8.4"
candle-nn = "=0.8.4"
clap = { version = "=4.6.7", features = ["derive", "env"] }
dirs = "=5.0.1"
encoding_rs = "0.8"
flate2 = "=1.1.10"
futures-util = "=0.3.34"
half = "=2.7.1"
hostname = "=0.4.2"
libc = "=0.2.191"
llama-cpp-2 = "0.1"
rand = "=0.8.8"
regex = "=1.13.1"
reqwest = { version = "=0.12.28", default-features = false, features = ["json", "rustls-tls"] }
rusqlite = { version = "=0.32.1", features = ["bundled"] }
serde = { version = "=1.0.229", features = ["derive"] }
serde_json = "=1.0.154"
shellexpand = "=3.1.2"
tempfile = "=3.27.0"
tokenizers = { version = "=0.21.4", default-features = false, features = ["fancy-regex"] }
tokio = { version = "=1.54.1", features = ["full"] }
tokio-tungstenite = { version = "=0.26.2", features = ["rustls-tls-webpki-roots"] }
tokio-util = { version = "=0.7.20", features = ["io"] }
toml = "=0.8.23"
tracing = "=0.1.44"
tracing-subscriber = { version = "=0.3.23", features = ["env-filter"] }
unicode-normalization = "=0.1.26"
uuid = { version = "=1.29.0", features = ["v4"] }
