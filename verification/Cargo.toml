[package]
name = "fileserve_core"
version = "0.1.0"
edition = "2021"
publish = false

[dependencies]
uuid = { version = "*", features = ["v4"] }
argon2 = "*"
subtle = "*"
hyper = { version = "*", features = ["http1", "server"] }
hyper-util = { version = "*", features = ["tokio"] }
tokio = { version = "*", features = ["rt-multi-thread", "macros", "net"] }
serde = "*"
serde_json = "*"
mime_guess = "*"
chrono = "*"
urlencoding = "*"
