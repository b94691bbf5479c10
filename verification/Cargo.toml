[package]
name = "geckodoodad"
version = "0.1.0"
edition = "2021"
publish = false

[dependencies]
regex = "1"
rayon = "1"
reqwest = { version = "0.12", default-features = false, features = ["rustls-tls"] }
scraper = "*"
serde = { version = "1", features = ["derive"] }
serde_json = "1"
tokio = { version = "1", features = ["macros", "rt-multi-thread"] }
