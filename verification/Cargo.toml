[package]
name = "shadowenv"
version = "1.0.0"
edition = "2021"
publish = false

[dependencies]
anyhow = "1"
argon2 = { version = "0.5", features = ["std"] }
chacha20poly1305 = "0.10"
clap = { version = "4", features = ["derive"] }
colored = "2"
console = "0.15"
inquire = "0.7"
rand = "0.8"
rpassword = "7"
tar = "0.4"
walkdir = "2"
zstd = "0.13"
