[package]
name = "notedata"
version = "0.1.0"
edition = "2021"
publish = false

[dependencies]
anyhow = "*"
axum = "*"
chrono = "*"
dotenvy = "*"
mime_guess = "*"
sqlx = { version = "*", default-features = false, features = ["runtime-tokio", "postgres", "chrono"] }
tokio = { version = "*", features = ["full"] }
tokio-stream = { version = "*", features = ["sync"] }
tokio-util = { version = "*", features = ["io"] }
tonic = "*"
tonic-middleware = "*"
uuid = { version = "*", features = ["v4"] }
