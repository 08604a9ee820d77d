[package]
name = "rusty_pm"
version = "0.1.0"
edition = "2021"
publish = false

[dependencies]
rust-argon2 = "*"
chacha20poly1305 = "*"
clap = { version = "*", features = ["derive"] }
