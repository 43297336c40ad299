[package]
name = "trie_updates"
version = "0.1.0"
edition = "2021"
publish = false

[dependencies]
alloy-primitives = { version = "=1.7.3", features = ["serde"] }
alloy-trie = { version = "=0.9.9", features = ["serde"] }
nybbles = "=0.4.9"
serde = { version = "=1.0.229", features = ["derive"] }
serde_json = "=1.0.154"
serde_with = "*"
