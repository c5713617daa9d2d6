[package]
name = "scopic"
version = "0.1.0"
edition = "2021"
publish = false

[dependencies]
crossterm = { version = "0.29", features = ["use-dev-tty", "osc52"] }
ratatui = "0.30"
similar = { version = "2", features = ["unicode"] }
unicode-segmentation = "1"
unicode-width = "0.2"
