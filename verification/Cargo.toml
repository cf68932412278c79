[package]
name = "torrent_core"
version = "0.1.0"
edition = "2021"
publish = false

[dependencies]
hex = "0.4"
rand = "0.8"
sha1-checked = "*"
reqwest = { version = "0.12", default-features = false }
tokio = { version = "1", features = ["rt-multi-thread", "macros", "net", "sync", "time", "fs", "io-util"] }
clap = { version = "4", features = ["derive"] }
chrono = "0.4"

[dev-dependencies]
url-escape = "*"
percent-encoding = "2"
