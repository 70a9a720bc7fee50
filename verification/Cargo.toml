[package]
name = "http_server"
version = "0.1.0"
edition = "2021"
publish = false

[dependencies]
bytes = "1"
clap = { version = "4", features = ["derive"] }
indexmap = "2"
urlencoding = "2"
