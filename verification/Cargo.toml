[package]
name = "dataragon"
version = "0.1.0"
edition = "2021"
publish = false

[dependencies]
sha2 = "*"
crc = "*"
reed-solomon = "*"
chacha20-poly1305-aead = "*"
shamirsecretsharing = "*"
rand = "*"
bs58 = "*"
rpassword = "*"

[dev-dependencies]
itertools = "*"
