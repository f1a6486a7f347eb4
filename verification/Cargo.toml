[package]
name = "egypt"
version = "0.1.0"
edition = "2021"
publish = false

[dependencies]
chrono = "*"
process_mining = "*"
