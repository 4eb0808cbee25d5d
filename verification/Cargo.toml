[package]
name = "vpn_engine"
version = "0.1.0"
edition = "2021"
publish = false

[dependencies]
bytes = "1"
tokio = { version = "1", features = ["io-util", "time", "rt", "rt-multi-thread", "net", "macros"] }
tokio-rustls = "0.26"
nix = { version = "0.29", features = ["user", "term"] }
rusqlite = { version = "0.32", features = ["bundled"] }
serde = { version = "1", features = ["derive"] }
serde_json = "1"
tracing = "0.1"
tracing-subscriber = { version = "0.3", features = ["env-filter", "fmt"] }
