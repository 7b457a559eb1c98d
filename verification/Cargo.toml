[package]
name = "rdr_proxy"
version = "0.1.0"
edition = "2021"
publish = false

[dependencies]
serde_json = "=1.0.154"
headless_chrome = { version = "=0.9.0", default-features = false }
failure = "=0.1.8"
anyhow = "=1.0.104"
