[package]
name = "win_odds"
version = "0.1.0"
edition = "2021"
publish = false

[dependencies]
itertools = "0.12"
rand = "0.8"
num-bigint = "0.4"
num-integer = "0.1"
num-traits = "0.2"
