[package]
name = "encnotes"
version = "0.1.0"
edition = "2021"
publish = false

[dependencies]
argon2 = "*"
base64 = "*"
chacha20poly1305 = "*"
chrono = "*"
clap = { version = "*", features = ["derive"] }
rand = "*"
rpassword = "*"
uuid = { version = "*", features = ["v4"] }
