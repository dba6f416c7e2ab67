[package]
name = "wordle_generator"
version = "0.1.0"
edition = "2021"
publish = false

[dependencies]
wyhash = "*"
sha2 = "*"
rand = "*"
