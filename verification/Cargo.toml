[package]
name = "get_md"
version = "0.1.0"
edition = "2021"
publish = false

[dependencies]
url = "*"
anyhow = "*"
clap = { version = "*", features = ["derive"] }
headless_chrome = "*"
htmd = "*"
indicatif = "*"
