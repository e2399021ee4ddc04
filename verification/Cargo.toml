[package]
name = "edge_bookmarks_organizer"
version = "0.1.0"
edition = "2021"
publish = false

[dependencies]
url = "2"
rust-stemmers = "1"
serde = { version = "1", features = ["derive"] }
serde_json = "1"
thiserror = "*"
clap = { version = "4", features = ["derive"] }
colored = "*"
dirs = "*"
chrono = "0.4"
futures = "0.3"
indicatif = "0.17"
tokio = { version = "1", features = ["rt-multi-thread"] }
reqwest = { version = "0.12", default-features = false, features = ["rustls-tls"] }
