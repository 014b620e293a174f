[package]
name = "rooster"
version = "0.1.0"
edition = "2021"
publish = false

[dependencies]
scrypt = { version = "=0.12.0", default-features = false }
hmac = "=0.13.0"
sha2 = "=0.11.0"
aes = "=0.9.3"
cbc = { version = "=0.2.1", features = ["alloc"] }
getrandom = "=0.4.3"
zeroize = "*"
