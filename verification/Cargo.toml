[package]
name = "sapvault"
version = "1.2.1"
edition = "2021"
publish = false

[dependencies]
aes-gcm = "0.10"
argon2 = "0.5"
quick-xml = "0.37"
serde = { version = "1", features = ["derive"] }
serde_json = "1"
chrono = "0.4"
dirs = "5"
walkdir = "2"
zeroize = "1"
thiserror = "2"
arboard = "3"
