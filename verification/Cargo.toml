[package]
name = "rime"
version = "1.0.0"
edition = "2021"
publish = false

[dependencies]
crossterm = "0.25"
id3 = "1"
tui = "0.19"
