[package]
name = "tgapi"
version = "0.1.0"
edition = "2021"
publish = false

[dependencies]
crc32fast = "1"
tokio = { version = "1", features = ["rt-multi-thread", "macros", "sync", "net", "io-util", "io-std"] }
dotenvy = "0.15"
tracing = "0.1"
tracing-subscriber = "0.3"
anyhow = "1"
