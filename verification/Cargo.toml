[package]
name = "codecrafters-redis"
version = "0.1.0"
edition = "2021"
publish = false

[dependencies]
bytes = "1"
memchr = "2"
tokio = { version = "1", features = ["rt-multi-thread", "macros", "net", "io-util"] }
tokio-util = { version = "0.7", features = ["codec"] }
tracing = "0.1"
tracing-forest = "0.1"
tracing-subscriber = { version = "0.3", features = ["env-filter"] }
