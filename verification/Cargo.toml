[package]
name = "lightning"
version = "0.1.0"
edition = "2021"
publish = false

[dependencies]
glob = "0.3"
blake3 = "1"
base64 = "0.22"
regex = "1"
quick-xml = "*"
serde = { version = "1", features = ["derive"] }
serde_json = "1"
toml = "*"
clap = { version = "4", features = ["derive", "env"] }
ureq = { version = "3", features = ["json"] }
axum = "0.8"
tokio = { version = "1", features = ["macros", "rt-multi-thread", "net", "fs"] }
rusqlite = { version = "*", features = ["bundled"] }
