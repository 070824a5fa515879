[package]
name = "yakking_yak"
version = "0.1.0"
edition = "2021"
publish = false

[dependencies]
base64 = "=0.21.7"
x25519-dalek = { version = "=2.0.1", features = ["static_secrets"] }
rand_core = { version = "=0.6.4", features = ["getrandom"] }
rand_chacha = "=0.3.1"
aes-gcm = "=0.10.3"
hkdf = "=0.12.4"
sha2 = "=0.10.9"
k256 = { version = "=0.13.4", features = ["ecdsa"] }
chrono = { version = "=0.4.45", default-features = false, features = ["clock"] }
serde = { version = "=1.0.229", features = ["derive"] }
serde_json = "=1.0.154"
actix = "=0.13.5"
actix-codec = "=0.5.4"
awc = { version = "=3.11.0", default-features = false }
bytes = "=1.12.1"
futures = "=0.3.34"
env_logger = "=0.10.2"
magic-crypt = "3"
