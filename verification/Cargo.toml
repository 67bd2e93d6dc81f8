[package]
name = "envvault"
version = "0.1.0"
edition = "2021"
publish = false

[dependencies]
anyhow = "1"
arboard = { version = "3", default-features = false }
argon2 = "0.5"
base64 = "0.22"
blake3 = "1"
chacha20poly1305 = "0.10"
clap = { version = "4", features = ["derive"] }
crossterm = "0.28"
dirs = "5"
getrandom = "0.2"
libc = "0.2"
ratatui = "0.29"
rpassword = "7"
tar = "0.4"
zeroize = "1"
zxcvbn = "3"
