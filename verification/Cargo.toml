[package]
name = "mimcge"
version = "0.1.0"
edition = "2021"
publish = false

[dependencies]
aes = "0.8"
clap = { version = "4", features = ["derive"] }
g2p = "1"
rand = "0.8"
