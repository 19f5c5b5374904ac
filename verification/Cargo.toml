[package]
name = "tlscap"
version = "0.1.0"
edition = "2021"
publish = false

[dependencies]
aes-gcm = "0.10"
chacha20poly1305 = "0.10"
chrono = "0.4"
clap = { version = "4", features = ["derive", "env"] }
etherparse = "*"
flate2 = "1"
hex = "0.4"
hkdf = "0.12"
hmac = "0.12"
mlua = { version = "0.10", features = ["lua54", "vendored"] }
pcap-file = "2"
sha2 = "0.10"
thiserror = "2"

[dev-dependencies]
rcgen = "0.14"
rustls = { version = "0.23", default-features = false, features = ["ring", "std", "tls12", "logging"] }
