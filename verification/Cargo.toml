[package]
name = "prism"
version = "0.1.0"
edition = "2021"
publish = false

[dependencies]
ratatui = "0.26"
crossterm = "0.27"
clap = { version = "4.4", features = ["derive"] }
unicode-width = "0.1"
