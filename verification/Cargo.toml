[package]
name = "cob_issues"
version = "0.1.0"
edition = "2021"
publish = false

[dependencies]
anyhow = "=1.0.104"
argh = "=0.1.19"
automerge = "=0.6.1"
lazy_static = "=1.5.1"
librad = "=0.0.0"
serde = { version = "=1.0.229", features = ["derive"] }
serde_json = "=1.0.154"
tracing-subscriber = "=0.3.23"
