[package]
name = "humbird"
version = "0.1.0"
edition = "2021"
publish = false

[dependencies]
mio = { version = "*", features = ["net", "os-poll"] }
tokio = { version = "*", features = ["rt-multi-thread", "net", "io-util", "macros"] }
toml = "*"
