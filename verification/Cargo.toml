[package]
name = "kedge"
version = "0.1.0"
edition = "2021"
publish = false

[dependencies]
itertools = "*"
rand = "*"
clap = { version = "*", features = ["derive"] }
