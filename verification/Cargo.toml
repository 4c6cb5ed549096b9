[package]
name = "embedded_language_server"
version = "0.1.0"
edition = "2021"
publish = false

[dependencies]
anyhow = "1"
async-lsp = { version = "0.2", features = ["tokio"] }
clap = { version = "4", features = ["derive", "cargo"] }
dashmap = "6"
deadpool-tiberius = "*"
dunce = "1"
futures = "0.3"
hex = "0.4"
nucleo-matcher = "0.3"
regex = "1"
ropey = "1"
serde = { version = "1", features = ["derive"] }
sha2 = "0.10"
tokio = { version = "1", features = ["full"] }
tokio-util = { version = "0.7", features = ["compat"] }
toml = "*"
tower = "0.5"
tracing = "0.1"
tracing-appender = "0.2"
tracing-subscriber = "0.3"
