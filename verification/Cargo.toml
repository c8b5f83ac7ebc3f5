[package]
name = "inncms"
version = "0.1.0"
edition = "2021"
publish = false

[dependencies]
aes-gcm = "*"
anyhow = "*"
base64 = "*"
dirs-next = "*"
flate2 = "*"
rand = "*"
serde = { version = "*", features = ["derive"] }
serde_json = "*"
sha2 = "*"
ssh2 = "*"
tar = "*"
walkdir = "*"
