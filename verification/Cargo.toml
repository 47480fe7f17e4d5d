[package]
name = "ftp_sync"
version = "0.1.0"
edition = "2021"
publish = false

[dependencies]
anyhow = "1"
serde = { version = "1", features = ["derive"] }
serde_json = "1"
suppaftp = "*"
tokio = { version = "1", features = ["fs"] }
zed_extension_api = "*"
