[package]
name = "secret_sharing_extra"
version = "0.1.0"
edition = "2021"
publish = false

[dependencies]
curve25519-dalek = "3"
k256 = { version = "0.13", default-features = false, features = ["arithmetic"] }
num-bigint-dig = "0.8"
rand = "0.8"
