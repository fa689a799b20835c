[package]
name = "anna"
version = "0.1.0"
edition = "2021"
publish = false

[dependencies]
rand = "0.8"
roaring = "*"
tokio = { version = "*", features = ["io-util", "fs", "sync", "rt", "macros"] }
async-trait = "*"
log = "*"
bytes = "*"
