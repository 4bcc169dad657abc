[package]
name = "addressable_pairing_heap"
version = "0.1.0"
edition = "2021"
publish = false

[dependencies]
stash = "*"

[dev-dependencies]
rand = "*"
