[package]
name = "lottery_predict"
version = "0.1.0"
edition = "2021"
publish = false

[dependencies]
calamine = "*"
chrono = "0.4"
clap = { version = "4", features = ["derive"] }
combinations = "*"
indexmap = "2"
itertools = "*"
num = "0.4"
serde = { version = "1", features = ["derive"] }
