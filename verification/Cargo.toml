[package]
name = "adthand"
version = "0.1.0"
edition = "2021"
publish = false

[dependencies]
chrono = "*"
serde_json = "*"
tokio = { version = "*", features = ["rt-multi-thread", "macros", "net", "io-util", "sync", "time", "signal", "fs"] }
reqwest = { version = "*", default-features = false }
notify-rust = "*"
log = "*"
fern = "*"
humantime = "*"
clap = { version = "*", features = ["derive"] }
