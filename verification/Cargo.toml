[package]
name = "disk_tree"
version = "0.1.0"
edition = "2021"
publish = false

[dependencies]
bytesize = "*"
clap = { version = "4", features = ["derive"] }
crossterm = "0.28"
dirs = "*"
ratatui = "0.29"
unicode-width = "0.2"
walkdir = "2"
