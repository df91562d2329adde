[package]
name = "rss_alert"
version = "0.1.0"
edition = "2021"
publish = false

[dependencies]
chrono = "0.4"
roxmltree = "*"
urlencoding = "2"
reqwest = { version = "0.12", default-features = false, features = ["blocking", "rustls-tls"] }
tauri-winrt-notification = "*"
