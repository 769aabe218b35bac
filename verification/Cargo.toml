[package]
name = "twins"
version = "0.1.0"
edition = "2021"
publish = false

[dependencies]
goblin = "*"
id_tree = "*"
clap = { version = "*", features = ["derive"] }
