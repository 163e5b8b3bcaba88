[package]
name = "wasmee"
version = "0.1.0"
edition = "2021"
publish = false

[dependencies]
serde = { version = "=1.0.229", features = ["derive"] }
serde_json = "=1.0.154"
base64 = "=0.22.1"
zip = { version = "=9.2.2", default-features = false, features = ["deflate"] }
flate2 = "=1.1.10"
brotli = "=9.1.1"
sha2 = "=0.10.9"
prost = "=0.14.4"
wasmtime = "=46.0.3"
tokio = { version = "=1.54.1", features = ["rt-multi-thread", "macros", "net", "sync"] }
axum = "=0.8.9"
tower-http = { version = "=0.6.11", features = ["cors", "compression-full", "decompression-full"] }
reqwest = { version = "=0.12.28", default-features = false, features = ["rustls-tls"] }
