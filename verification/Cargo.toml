[package]
name = "entropy"
version = "0.1.0"
edition = "2021"
publish = false

[dependencies]
actix-web = "4"
actix-web-opentelemetry = { version = "0.15", features = ["awc"] }
awc = "3"
bincode = "1.3"
clap = { version = "4", features = ["derive"] }
ed25519-dalek = { version = "2", features = ["rand_core", "serde"] }
opentelemetry = { version = "0.20", features = ["rt-tokio"] }
opentelemetry-jaeger = "0.19"
opentelemetry-otlp = "0.13"
rand = "0.8"
reqwest = { version = "0.11", default-features = false }
serde = { version = "1", features = ["derive"] }
sha2 = "0.10"
tokio = { version = "1", features = ["full"] }
tokio-util = { version = "0.7", features = ["rt"] }
tracing = "0.1"
tracing-opentelemetry = "0.21"
tracing-subscriber = { version = "0.3", features = ["env-filter"] }
