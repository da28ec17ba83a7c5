[package]
name = "blog_core"
version = "0.1.0"
edition = "2021"
publish = false

[dependencies]
rust-argon2 = "2"
jsonwebtoken = "8"
base64 = "0.13"
axum = "0.6"
tokio = { version = "1", features = ["macros", "rt-multi-thread"] }
sqlx = { version = "0.6", default-features = false, features = ["runtime-tokio-rustls", "postgres"] }
serde = { version = "1", features = ["derive"] }
serde_json = "1"
http = "0.2"
hyper = "0.14"
cookie = "0.17"
tera = "1"
tracing = "0.1"
anyhow = "1"
