[package]
name = "wordle"
version = "0.1.0"
edition = "2021"
publish = false

[dependencies]
once_cell = "1"
clap = { version = "3", features = ["derive"] }
mimalloc = "0.1"
