[package]
name = "http_server"
version = "0.1.0"
edition = "2021"
publish = false

[dependencies]
flate2 = "1"
anyhow = "1"
clap = { version = "4", features = ["derive"] }
threadpool = "1"
