[package]
name = "selection_list"
version = "0.1.0"
edition = "2021"
publish = false

[dependencies]
ratatui = { version = "*", default-features = false }
unicode-width = "*"
