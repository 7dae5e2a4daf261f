[package]
name = "voidveil"
version = "0.1.0"
edition = "2021"
publish = false

[dependencies]
dashmap = "6"
regex = "1"
uuid = { version = "1", features = ["v4"] }
serde_json = "1"
axum = "0.7"
axum-server = { version = "0.7", features = ["tls-rustls-no-provider"] }
reqwest = { version = "0.12", default-features = false, features = ["json", "rustls-tls"] }
rustls = { version = "0.23", default-features = false, features = ["ring", "std", "logging", "tls12"] }
tokio = { version = "1", features = ["full"] }
tracing = "0.1"
tracing-subscriber = { version = "0.3", features = ["env-filter"] }
rcgen = "0.13"
