[package]
name = "linkscope"
version = "0.1.0"
edition = "2021"
publish = false

[dependencies]
age = "0.11"
anyhow = "1"
async-trait = "0.1"
fs2 = "0.4"
futures = "0.3"
inventory = "0.3"
petgraph = "*"
reqwest = { version = "0.12", default-features = false, features = ["rustls-tls", "socks", "stream"] }
rusqlite = { version = "*", features = ["bundled"] }
serde = { version = "1", features = ["derive"] }
serde_json = "1"
sha2 = "0.10"
tantivy = "*"
tempfile = "3"
time = { version = "0.3", features = ["formatting"] }
tokio = { version = "1", features = ["rt-multi-thread", "sync", "time", "macros"] }
tokio-util = "0.7"
url = "2"
uuid = { version = "1", features = ["v4", "v5"] }
zeroize = "1"
