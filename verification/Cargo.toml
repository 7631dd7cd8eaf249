[package]
name = "hash_trie"
version = "0.1.0"
edition = "2021"

[dependencies]
memmap = "0.7"

[dev-dependencies]
rand = "0.8"
