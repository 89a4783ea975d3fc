[package]
name = "whismur"
version = "0.1.0"
edition = "2021"
publish = false

[dependencies]
chrono = "*"
irc = { version = "*", default-features = false }
tokio = { version = "*", features = ["rt", "macros", "time"] }
futures = "*"
