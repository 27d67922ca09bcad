[package]
name = "rust_fetch"
version = "0.1.0"
edition = "2021"
publish = false

[dependencies]
colored = "2"
titlecase = "*"
directories = "5"
local-ip-address = "*"
serde = { version = "1", features = ["derive"] }
sys-info = "0.9"
toml = "0.5"
uname = "0.1"
whoami = "1"
