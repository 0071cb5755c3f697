[package]
name = "shogi_puzzle"
version = "0.1.0"
edition = "2021"
publish = false

[dependencies]
colored = "2"
fxhash = "0.2"
