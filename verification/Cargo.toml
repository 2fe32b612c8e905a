[package]
name = "hats"
version = "0.1.0"
edition = "2021"
publish = false

[dependencies]
typed-index-collections = "3"
minilp = "0.2"
