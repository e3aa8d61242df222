[package]
name = "func"
version = "0.1.0"
edition = "2021"
publish = false

[dependencies]
anyhow = "1"
lambda_http = "*"
lambda_runtime = "*"
serde = { version = "1", features = ["derive"] }
serde_json = "1"
tokio = { version = "1", features = ["macros", "rt"] }
tracing = "0.1"
tracing-subscriber = "0.3"
