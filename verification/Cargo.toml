[package]
name = "nasty_top"
version = "0.1.0"
edition = "2021"
publish = false

[dependencies]
clap = { version = "4", features = ["derive"] }
crossterm = "0.28"
nix = { version = "0.29", features = ["fs"] }
ratatui = "0.29"
serde_json = "1"
