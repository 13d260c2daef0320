[package]
name = "rssget"
version = "0.1.0"
edition = "2021"
publish = false

[dependencies]
rss = "2"
clap = { version = "4", features = ["derive"] }
inquire = "*"
reqwest = { version = "0.12", default-features = false, features = ["stream"] }
tokio = { version = "1", features = ["rt-multi-thread", "macros", "fs", "io-util"] }
futures-util = "0.3"
