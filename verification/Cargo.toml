[package]
name = "karst"
version = "0.1.0"
edition = "2021"
publish = false

[dependencies]
blake3 = "=1.8.7"
blind-rsa-signatures = "=0.15.2"
hex = "=0.4.3"
hpke = "=0.15.1"
merlin = "=3.0.0"
rand = "=0.8.8"
schnorrkel = "=0.11.5"
x25519-dalek = "=3.0.0"
