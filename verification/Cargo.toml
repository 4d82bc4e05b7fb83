[package]
name = "depbundle"
version = "0.1.0"
edition = "2021"
publish = false

[dependencies]
goblin = "*"
regex = "*"
clap = { version = "*", features = ["derive"] }
