[package]
name = "telemetry"
version = "0.1.0"
edition = "2021"
publish = false

[dependencies]
serde_json = "1"
tracing = "*"
tracing-subscriber = { version = "*", features = ["env-filter"] }
tracing-log = "*"
tracing-opentelemetry = "*"
opentelemetry = "*"
opentelemetry_sdk = "*"
opentelemetry-otlp = { version = "*", default-features = false, features = ["trace", "grpc-tonic"] }
opentelemetry-semantic-conventions = "*"
sentry = { version = "*", default-features = false }
axum-tracing-opentelemetry = "*"
tonic-tracing-opentelemetry = "*"
