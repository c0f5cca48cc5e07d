[package]
name = "levi"
version = "0.1.0"
edition = "2021"
publish = false

[dependencies]
chrono = "=0.4.45"
sha2 = "=0.10.9"
serde = { version = "=1.0.229", features = ["derive"] }
serde_json = "=1.0.154"
anyhow = "=1.0.104"
clap = { version = "=4.6.7", features = ["derive"] }
toml = "=0.8.23"
uuid = { version = "=1.29.0", features = ["v4"] }
hostname = "=0.4.2"
ciborium = "=0.2.2"
base64 = "=0.22.1"
gix = { version = "=0.90.0", default-features = false, features = ["sha1", "revision"] }
myko = "=4.24.4"
tokio = { version = "1", features = ["rt-multi-thread", "net", "time", "macros", "sync"] }
tokio-tungstenite = "*"
futures-util = "*"
fs4 = "*"
