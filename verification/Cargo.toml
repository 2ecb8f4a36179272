[package]
name = "wordlebot"
version = "0.1.0"
edition = "2021"
publish = false

[dependencies]
anyhow = "*"
clap = { version = "*", features = ["derive"] }
colored = "*"
crossterm = "*"
indicatif = "*"
ratatui = "*"
rayon = "*"
tokio = { version = "*", features = ["full"] }
tokio-util = "*"
