[package]
name = "journaled_trie"
version = "0.1.0"
edition = "2021"
publish = false

[dependencies]
hashbrown = "=0.17.1"
light-poseidon = "=0.4.0"
ark-bn254 = "=0.5.0"
