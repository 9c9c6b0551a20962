[package]
name = "wgquery"
version = "0.1.0"
edition = "2021"
publish = false

[dependencies]
netlink-sys = "*"
base64 = "*"
clap = { version = "*", features = ["derive"] }
