[package]
name = "flooglyflup"
version = "0.1.0"
edition = "2021"
publish = false

[dependencies]
anyhow = "1"
arrow = { version = "*", default-features = false }
axum = "*"
chrono = "0.4"
clap = { version = "4", features = ["derive"] }
parquet = { version = "*", default-features = false, features = ["arrow", "zstd"] }
postcard = { version = "1", features = ["alloc"] }
reqwest = { version = "0.12", default-features = false, features = ["rustls-tls"] }
scraper = "*"
serde = { version = "1", features = ["derive"] }
serde_json = "1"
sha2 = "0.10"
tantivy = "*"
tokio = { version = "1", features = ["full"] }
tower-http = { version = "*", features = ["cors"] }
tracing = "0.1"
tracing-subscriber = "0.3"
url = "2"
whatlang = "*"
