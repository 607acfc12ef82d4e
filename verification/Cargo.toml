[package]
name = "fern"
version = "0.1.0"
edition = "2021"
publish = false

[dependencies]
anyhow = "1"
async-recursion = "1"
clap = { version = "4", features = ["derive"] }
crossterm = "0.29"
portable-pty = "0.9"
serde = { version = "1", features = ["derive"] }
serde_json = "1"
sha2 = "0.10"
tokio = { version = "1", features = ["full"] }
uuid = { version = "1", features = ["v4"] }
vt100 = "0.16"
