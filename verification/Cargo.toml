[package]
name = "laika"
version = "0.1.0"
edition = "2021"
publish = false

[dependencies]
regex = "*"
time = "*"
uuid = { version = "*", features = ["v4"] }
serde = { version = "*", features = ["derive"] }
serde_json = "*"
serde_yaml = "*"
thiserror = "*"
clap = { version = "*", features = ["derive"] }
tokio = { version = "*", features = ["rt-multi-thread", "macros", "io-util", "fs", "sync", "time"] }
futures = "*"
async-trait = "*"
tracing = "*"
tracing-subscriber = { version = "*", features = ["env-filter"] }
fs2 = "*"
lapin = "*"
rocksdb = "*"
