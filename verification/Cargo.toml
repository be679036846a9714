[package]
name = "bsp_dungeon"
version = "0.1.0"
edition = "2021"
publish = false

[dependencies]
rand = "0.8"
crossterm = "0.27"
ptree = { version = "0.4", default-features = false, features = ["ansi"] }
thiserror = "1"
