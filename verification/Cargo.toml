[package]
name = "cyeam_api"
version = "0.1.0"
edition = "2021"
publish = false

[dependencies]
axum = "0.8"
opentelemetry = { version = "*", features = ["metrics", "trace"] }
opentelemetry-otlp = { version = "*", features = ["http-proto", "metrics", "trace"] }
opentelemetry_sdk = { version = "*", features = ["metrics", "trace"] }
pinyin = "*"
serde = { version = "1", features = ["derive"] }
tokio = { version = "1", features = ["macros", "net", "rt-multi-thread", "signal"] }
tracing-opentelemetry = "*"
tracing-subscriber = { version = "0.3", features = ["env-filter"] }
