[package]
name = "real_ip"
version = "0.1.0"
edition = "2021"
publish = false

[dependencies]
http = "1"
tower = "0.5"
axum = { version = "0.8", default-features = false, features = ["tokio"] }
