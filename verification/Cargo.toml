[package]
name = "tfidf_search"
version = "0.1.0"
edition = "2021"
publish = false

[dependencies]
rust-stemmers = "1.2"
xml-rs = "0.8"
serde = { version = "1", features = ["derive"] }
serde_json = "1"
reqwest = { version = "0.12", default-features = false, features = ["blocking", "json", "rustls-tls"] }
