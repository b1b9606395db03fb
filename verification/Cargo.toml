[package]
name = "nomadnet"
version = "0.1.0"
edition = "2021"
publish = false

[dependencies]
rns-core = "*"
rns-crypto = "*"
rns-net = "*"
hex = "0.4"
tokio = { version = "1", features = ["rt-multi-thread", "macros", "time", "sync"] }
tokio-util = "0.7"
tracing = "0.1"
tracing-subscriber = { version = "0.3", features = ["env-filter"] }
clap = { version = "4", features = ["derive"] }
notify = "*"
thiserror = "*"
