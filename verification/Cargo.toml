[package]
name = "imap_mcp_rs"
version = "0.1.0"
edition = "2021"
publish = false

[dependencies]
ammonia = "4"
anyhow = "1"
async-imap = { version = "0.11", default-features = false, features = ["runtime-tokio"] }
aws-lc-rs = "1"
base64 = "0.22"
dirs = "6"
dotenvy = "0.15"
futures-util = "0.3"
jiff = "0.2"
mail-builder = "0.4"
mail-parser = "0.11"
rmcp = { version = "1", features = ["server", "macros", "transport-io"] }
rustls = "0.23"
serde = { version = "1", features = ["derive"] }
serde_json = "1"
socket2 = { version = "*", features = ["all"] }
tokio = { version = "1", features = ["full"] }
tokio-rustls = "0.26"
toml = "*"
tracing = "0.1"
tracing-subscriber = { version = "0.3", features = ["env-filter"] }
uuid = { version = "1", features = ["v4"] }
webpki-roots = "*"
