[package]
name = "sonido_sigiloso"
version = "0.1.0"
edition = "2021"
publish = false

[dependencies]
axum = "*"
html-escape = "*"
serde = { version = "*", features = ["derive"] }
serde_json = "*"
sqlx = { version = "*", features = ["sqlite", "runtime-tokio"] }
tokio = { version = "*", features = ["full"] }
tower = "*"
tower-http = { version = "*", features = ["trace"] }
urlencoding = "*"
