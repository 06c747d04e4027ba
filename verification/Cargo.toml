[package]
name = "simpleice"
version = "0.1.0"
edition = "2021"
publish = false

[dependencies]
chrono = "*"
clap = "*"
console = "*"
dialoguer = "*"
rust-ini = "*"
