[package]
name = "cpm_core"
version = "0.1.0"
edition = "2021"
publish = false

[dependencies]
serde_json = "*"
zip = { version = "*", default-features = false, features = ["deflate"] }
z80emu = "*"
clap = { version = "*", features = ["derive"] }
crossterm = "*"
tokio = { version = "*", features = ["rt-multi-thread", "macros", "sync", "time"] }
