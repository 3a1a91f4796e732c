[package]
name = "blockchain_node"
version = "0.1.0"
edition = "2021"
publish = false

[dependencies]
sha2 = "0.9"
hex = "0.4"
rand = "0.7"
ed25519-dalek = "1"
crossterm = "0.19"
ctrlc = "3"
structopt = "0.3"
