[package]
name = "age"
version = "0.1.0"
edition = "2021"
publish = false

[dependencies]
chacha20poly1305 = "0.10"
hkdf = "0.12"
hmac = "0.12"
sha2 = "0.10"
scrypt = { version = "0.11", default-features = false }
x25519-dalek = "2"
rand = "0.8"
secrecy = "0.8"
zeroize = "1"
