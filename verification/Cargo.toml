[package]
name = "yard_provider"
version = "0.1.0"
edition = "2021"
publish = false

[dependencies]
anyhow = "1"
async-trait = "0.1"
base64 = "0.22"
bytes = "1"
clap = { version = "4", features = ["derive", "env"] }
idevice = { version = "0.1", features = ["full"] }
plist = "1"
rand = "0.10"
reqwest = { version = "0.12", default-features = false, features = ["rustls-tls", "stream"] }
rsa = "0.9"
serde_json = "1"
sha1 = { version = "0.10", features = ["oid"] }
sha2 = "0.10"
thiserror = "2"
tokio = { version = "1", features = ["full"] }
tracing = "0.1"
tracing-subscriber = { version = "0.3", features = ["env-filter"] }
uuid = { version = "1", features = ["v4"] }
