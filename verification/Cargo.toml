[package]
name = "arcb_stegano_trapdoor"
version = "0.1.0"
edition = "2021"
publish = false

[dependencies]
aes-gcm = "=0.10.3"
blake3 = "=1.8.7"
getrandom = "=0.2.17"
rand = "=0.8.8"
sha3 = "=0.10.9"
subtle = "=2.6.1"
zeroize = "=1.9.1"
thiserror = "=1.0.69"

[dev-dependencies]
dudect-bencher = "0.6"
