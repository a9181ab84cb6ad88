[package]
name = "fortnite_downloader"
version = "0.1.0"
edition = "2021"
publish = false

[dependencies]
epic_manifest_parser_rs = "=0.1.7"
sha1 = "=0.11.0"
serde = { version = "=1.0.229", features = ["derive"] }
serde_json = "=1.0.154"
tokio = { version = "1", features = ["rt-multi-thread", "macros", "sync", "time"] }
reqwest = { version = "0.12", default-features = false, features = ["json", "rustls-tls"] }
