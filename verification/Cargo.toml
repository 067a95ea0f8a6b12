[package]
name = "filetracker"
version = "0.1.0"
edition = "2021"
publish = false

[dependencies]
sha2 = "*"
flate2 = "*"
chrono = "*"
axum = "*"
tokio = { version = "*", features = ["rt-multi-thread", "net", "signal", "time", "sync", "macros"] }
clap = { version = "*", features = ["derive"] }
serde = { version = "*", features = ["derive"] }
futures-util = "*"
http-body-util = "*"
