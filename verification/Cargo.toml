[package]
name = "clob"
version = "0.1.0"
edition = "2021"
publish = false

[dependencies]
anchor-lang = { version = "*", features = ["init-if-needed"] }
anchor-spl = "*"
ephemeral-rollups-sdk = { version = "*", features = ["anchor"] }
