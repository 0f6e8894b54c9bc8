[package]
name = "herdr-scratchpad"
version = "0.1.0"
edition = "2021"
publish = false

[dependencies]
crossterm = "*"
ratatui = "*"
serde_json = "1"
unicode-width = "0.2"
