[package]
name = "forebodere"
version = "0.1.0"
edition = "2021"
publish = false

[dependencies]
dashmap = "=6.2.1"
markov = { version = "=1.1.0", default-features = false }
time = { version = "=0.3.55", features = ["formatting"] }
poise = "=0.6.2"
clap = { version = "=4.6.7", features = ["derive"] }
tokio = { version = "=1.54.1", features = ["full"] }
tokio-rusqlite = { version = "=0.8.0", features = ["bundled"] }
rusqlite = { version = "=0.40.2", features = ["bundled"] }
reqwest = { version = "=0.12.28", default-features = false, features = ["json", "rustls-tls"] }
serde = { version = "=1.0.229", features = ["derive"] }
tracing = "=0.1.44"
tracing-subscriber = "=0.3.23"
opentelemetry = "=0.33.1"
opentelemetry-otlp = "=0.33.1"
opentelemetry_sdk = "=0.33.1"
