[package]
name = "tetra_pack"
version = "0.1.0"
edition = "2021"
publish = false

[dependencies]
grid = "*"
rand = "*"
clap = { version = "*", features = ["derive"] }
crossterm = "*"
serde = { version = "*", features = ["derive"] }
serde_json = "*"
color-eyre = "*"
