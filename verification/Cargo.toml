[package]
name = "blackjack_core"
version = "0.1.0"
edition = "2021"
publish = false

[dependencies]
rand = "0.8"
rand_chacha = "0.3"
sha2 = "0.10"
k256 = "0.13"
alloy-sol-types = "0.7"
alloy-primitives = "0.7"
hex = "0.4"
