[package]
name = "chatstore"
version = "0.1.0"
edition = "2021"
publish = false

[dependencies]
uuid = { version = "*", features = ["v4"] }
anyhow = "*"
clap = { version = "*", features = ["derive"] }
futures = "*"
rand = "*"
tokio = { version = "*", features = ["rt-multi-thread", "macros", "net", "io-util", "sync", "signal"] }
tokio-util = { version = "*", features = ["codec"] }
tracing = "*"
tracing-subscriber = { version = "*", features = ["env-filter", "fmt"] }
