[package]
name = "spg"
version = "0.1.0"
edition = "2021"
publish = false

[dependencies]
rand = "0.8"
image = "0.24"
clap = "2"
reqwest = { version = "0.11", default-features = false, features = ["blocking"] }
