[package]
name = "deltasync"
version = "1.2.0"
edition = "2021"
publish = false

[dependencies]
anyhow = "1"
clap = { version = "4", features = ["derive"] }
crc32c = "0.6"
daemonize = "0.5"
futures = "0.3"
hex = "0.4"
md-5 = "0.10"
path-clean = "1"
rand = "0.8"
rpassword = "7"
ssh2 = "0.9"
tokio = { version = "1", features = ["fs", "io-util", "macros", "net", "rt", "sync", "time"] }
tokio-stream = { version = "0.1", features = ["net", "time"] }
users = "0.11"
