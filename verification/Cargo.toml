[package]
name = "trie_proof"
version = "0.1.0"
edition = "2021"
publish = false

[dependencies]
sp-core = "*"
hex = "*"
