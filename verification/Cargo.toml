[package]
name = "presentrs"
version = "0.1.0"
edition = "2021"
publish = false

[dependencies]
lru = "*"
comrak = { version = "*", default-features = false }
axum = { version = "*", features = ["ws"] }
tokio = { version = "*", features = ["full"] }
tower-http = { version = "*", features = ["fs"] }
futures-util = "*"
