[package]
name = "udemyget"
version = "0.1.0"
edition = "2021"
publish = false

[dependencies]
aes = "0.8"
anyhow = "1"
cbc = "0.1"
crossterm = "0.28"
dirs = "6"
futures = "0.3"
m3u8-rs = "6"
rand = "0.8"
ratatui = "0.29"
sanitize-filename = "0.6"
serde = { version = "1", features = ["derive"] }
serde_json = "1"
tokio = { version = "1", features = ["full"] }
tokio-util = "0.7"
