[package]
name = "serde_envfile"
version = "0.1.0"
edition = "2021"
publish = false

[dependencies]
serde = "1"
lexical-core = "1"
embedded-io = "0.6"
