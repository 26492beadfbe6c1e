[package]
name = "cases"
version = "0.1.0"
edition = "2021"
publish = false

[dependencies]
zip = "*"
csv = "*"
indexmap = "*"
stop-words = "*"
tantivy-jieba = "*"
tantivy-tokenizer-api = "*"
axum = "*"
tokio = { version = "*", features = ["full"] }
tower = "*"
tower-http = { version = "*", features = ["full"] }
tracing = "*"
tracing-subscriber = { version = "*", features = ["env-filter"] }
basic-toml = "*"
serde = { version = "*", features = ["derive"] }
askama = "*"
