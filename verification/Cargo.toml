[package]
name = "probdisasm"
version = "0.1.0"
edition = "2021"
publish = false

[dependencies]
capstone = "*"
goblin = "*"
anyhow = "*"
clap = { version = "*", features = ["derive"] }
colored = "*"
