[package]
name = "depwave"
version = "0.1.0"
edition = "2021"
publish = false

[dependencies]
dot-parser = "*"
anyhow = "1"
clap = { version = "4", features = ["derive"] }
serde = { version = "1", features = ["derive"] }
serde_json = "1"
tempfile = "3"
tracing = "0.1"
tracing-subscriber = { version = "0.3", features = ["env-filter", "fmt"] }
