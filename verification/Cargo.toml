[package]
name = "qzb"
version = "0.1.0"
edition = "2021"
publish = false

[dependencies]
anyhow = "*"
dbuggery = "*"
qrexec-binds = "*"
serde = { version = "*", features = ["derive"] }
serde_yaml = "*"
