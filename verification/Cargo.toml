[package]
name = "dayone_export"
version = "0.1.0"
edition = "2021"
publish = false

[dependencies]
anyhow = "*"
chrono = "*"
clap = { version = "*", features = ["derive"] }
filetime = "*"
futures = "*"
sqlx = { version = "*", default-features = false, features = ["sqlite", "chrono", "runtime-tokio"] }
tokio = { version = "*", features = ["rt-multi-thread", "macros", "fs"] }
walkdir = "*"
