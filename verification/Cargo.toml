[package]
name = "rust_qotd_server"
version = "0.1.0"
edition = "2021"
publish = false

[dependencies]
chrono = "0.4"
dotenv = "0.15"
rusqlite = "*"
threadpool = "1.8"

[dev-dependencies]
regex = "1"
