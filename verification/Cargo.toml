[package]
name = "nyedarch"
version = "0.1.0"
edition = "2021"
publish = false

[dependencies]
miniz_oxide = "=0.8.9"
sha2 = "=0.10.9"
hkdf = "=0.12.4"
crypto_box = { version = "=0.9.1", features = ["seal"] }
getrandom = "=0.2.17"
rand_chacha = "0.3"
zeroize = "=1.9.1"
clap = { version = "=4.6.7", features = ["derive"] }
serde = { version = "=1.0.229", features = ["derive"] }
bincode = "=1.3.3"
thiserror = "=1.0.69"
