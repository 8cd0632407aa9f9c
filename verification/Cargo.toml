[package]
name = "hls_fetch"
version = "0.1.0"
edition = "2021"
publish = false

[dependencies]
url = "*"
m3u8-rs = "*"
reqwest = { version = "*", default-features = false, features = ["rustls-tls"] }
tokio = { version = "*", default-features = false, features = ["rt-multi-thread", "macros", "sync"] }
futures = "*"
bytes = "*"
