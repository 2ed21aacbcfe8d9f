[package]
name = "scriv"
version = "0.1.0"
edition = "2021"
publish = false

[dependencies]
aes-gcm = "*"
pbkdf2 = "*"
sha2 = "*"
rand = "*"
chrono = "*"
serde = { version = "1", features = ["derive"] }
serde_json = "1"
tempfile = "*"
rpassword = "*"
once_cell = "*"
zeroize = "*"
