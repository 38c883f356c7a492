[package]
name = "arb"
version = "0.1.0"
edition = "2021"
publish = false

[dependencies]
alloy = { version = "~1.0", default-features = false, features = ["std", "sol-types"] }
alloy-primitives = { version = "=1.7.3", features = ["serde"] }
arc-swap = "=1.9.3"
async-trait = "0.1"
brotli = "=7.0.0"
clap = { version = "4", default-features = false, features = ["std", "help", "usage", "error-context", "derive"] }
dashmap = "=6.2.1"
futures = { version = "0.3", default-features = false, features = ["std", "async-await"] }
rustls = { version = "0.23", default-features = false, features = ["ring", "std", "tls12"] }
serde = { version = "1", features = ["derive"] }
serde_json = "=1.0.154"
thiserror = "2"
tokio = { version = "1", features = ["rt-multi-thread", "macros", "time", "sync", "signal"] }
tokio-tungstenite = { version = "0.24", default-features = false, features = ["connect", "rustls-tls-webpki-roots"] }
toml = "0.5"
