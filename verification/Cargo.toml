[package]
name = "anlocate"
version = "0.1.0"
edition = "2021"

[dependencies]
unicase = "*"
clap = { version = "*", features = ["derive"] }
