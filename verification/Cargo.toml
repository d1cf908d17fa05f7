[package]
name = "snake"
version = "0.1.0"
edition = "2021"
publish = false

[dependencies]
rand = "*"
futures-channel = "*"
futures-util = "*"
tokio = { version = "*", features = ["rt-multi-thread", "net", "time", "macros", "sync"] }
tokio-tungstenite = "*"
uuid = { version = "*", features = ["v4"] }
