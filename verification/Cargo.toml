[package]
name = "iumenu"
version = "0.1.0"
edition = "2021"
publish = false

[dependencies]
rust-ini = "0.21"
lnk = "*"
clap = { version = "4", features = ["derive"] }
dirs = "5"
serde = { version = "1", features = ["derive"] }
toml = "0.8"
tokio = { version = "1", features = ["net", "io-util", "time", "rt", "rt-multi-thread", "macros"] }
winreg = "*"
