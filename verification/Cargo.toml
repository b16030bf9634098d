[package]
name = "kassiber"
version = "0.1.0"
edition = "2021"
publish = false

[dependencies]
aes-gcm = "=0.11.1"
hkdf = "=0.13.0"
sha2 = "=0.11.1"
ml-kem = "=0.3.4"
ml-dsa = "=0.1.2"
ed25519-dalek = { version = "=3.0.0", features = ["rand_core"] }
x25519-dalek = { version = "=3.0.0", features = ["static_secrets"] }
flate2 = "=1.1.10"
rand = "=0.10.3"
rand_core = "=0.10.1"
postcard = { version = "=1.1.3", features = ["alloc"] }
serde = { version = "=1.0.229", features = ["derive"] }
thiserror = "=2.0.21"
tokio = { version = "=1.54.1", features = ["rt-multi-thread", "sync", "macros"] }
log = "=0.4.35"
zeroize = { version = "=1.9.1", features = ["derive"] }
uniffi = "=0.32.2"
bip39 = "=3.0.0"
