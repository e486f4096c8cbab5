[package]
name = "score_lib"
version = "0.1.0"
edition = "2021"
publish = false

[dependencies]
ortalib = "=1.1.0"
clap = { version = "=4.6.7", features = ["derive"] }
serde_yaml = "=0.9.34"
