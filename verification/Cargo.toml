[package]
name = "github_hosts"
version = "0.1.0"
edition = "2021"
publish = false

[dependencies]
trust-dns-client = "0.23"
trust-dns-resolver = "0.23"
tokio = { version = "1", features = ["full"] }
futures = "0.3"
anyhow = "1"
clap = { version = "4", features = ["derive"] }
tracing = "0.1"
tracing-subscriber = { version = "0.3", features = ["env-filter"] }
chrono = "0.4"
reqwest = { version = "0.11", default-features = false, features = ["rustls-tls"] }
regex = "1"
