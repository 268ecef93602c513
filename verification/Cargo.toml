[package]
name = "whytchat_core"
version = "0.1.0"
edition = "2021"
publish = false

[dependencies]
serde_json = "*"
url = "*"
serde = { version = "*", features = ["derive"] }
reqwest = { version = "*", default-features = false, features = ["json", "stream", "rustls-tls"] }
tokio = { version = "*", features = ["rt-multi-thread", "macros", "fs", "io-util", "time", "sync"] }
rusqlite = { version = "*", features = ["bundled"] }
chrono = "*"
zip = { version = "*", default-features = false, features = ["deflate"] }
scraper = "*"
regex = "*"
pdf-extract = "*"
docx-rs = "*"
futures-util = "*"
