[package]
name = "webarchive-downloader-rust"
version = "0.1.0"
edition = "2021"
publish = false

[dependencies]
anyhow = "1"
clap = { version = "4", features = ["derive"] }
cssparser = "0.35"
futures-util = "0.3"
html-escape = "0.2"
lol_html = "2"
reqwest = { version = "0.12", default-features = false, features = ["rustls-tls", "socks", "stream"] }
serde = { version = "1", features = ["derive"] }
serde_json = "1"
tokio = { version = "1", features = ["fs", "io-util", "macros", "rt-multi-thread", "signal", "time"] }
url = "2"
