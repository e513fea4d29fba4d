[package]
name = "bookmarks"
version = "0.1.0"
edition = "2021"
publish = false

[dependencies]
dirs = "*"
image = "*"
open = "*"
regex = "*"
reqwest = { version = "*", default-features = false, features = ["rustls-tls"] }
serde = { version = "*", features = ["derive"] }
serde_json = "*"
sniffer-rs = "*"
tokio = { version = "*", features = ["macros", "rt-multi-thread"] }
