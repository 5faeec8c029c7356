[package]
name = "linkshrink"
version = "0.1.0"
edition = "2021"
publish = false

[dependencies]
lockfree = "=0.5.1"
redis-async = "=0.18.0"
tokio = { version = "1", features = ["full"] }
axum = "=0.8.9"
axum-template = { version = "=3.0.0", features = ["handlebars"] }
axum-prometheus = "=0.10.1"
handlebars = { version = "=6.4.4", features = ["dir_source"] }
serde = { version = "1", features = ["derive"] }
serde_json = "1"
thiserror = "*"
anyhow = "1"
tracing = "0.1"
tracing-subscriber = { version = "0.3", features = ["env-filter"] }
tap = "*"
