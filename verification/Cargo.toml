[package]
name = "mtklogo"
version = "0.1.2"
edition = "2021"
publish = false

[dependencies]
byteorder = "1"
clap = "4"
serde = { version = "1", features = ["derive"] }
serde_yaml = "0.9"
flate2 = "1"
