[package]
name = "trw"
version = "0.1.0"
edition = "2021"
publish = false

[dependencies]
rand = "*"
rayon = "*"
crossterm = "*"
ratatui = "*"
ratatui-wireframe = "*"
clap = { version = "*", features = ["derive"] }
