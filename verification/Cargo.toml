[package]
name = "pivx_bridge"
version = "0.1.0"
edition = "2021"
publish = false

[dependencies]
axum = "0.8"
bitcoincore-zmq = { version = "1", features = ["async"] }
clap = { version = "4", features = ["derive", "env"] }
dotenvy = "0.15"
futures = "0.3"
jaq-core = "3"
jaq-json = "2"
jaq-std = "3"
serde = { version = "1", features = ["derive"] }
serde_json = "1"
tokio = { version = "1", features = ["full"] }
tower-http = { version = "0.6", features = ["cors", "compression-gzip"] }
ureq = { version = "2", features = ["json"] }
