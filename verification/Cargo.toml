[package]
name = "rusthour"
version = "0.1.0"
edition = "2021"
publish = false

[dependencies]
clap = { version = "4", features = ["derive"] }
csv = "1"
either = "1"
indicatif = "0.17"
read_input = "0.8"
regex = "1"
smallvec = "1"
