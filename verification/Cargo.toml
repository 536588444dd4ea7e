[package]
name = "wallgrid"
version = "0.1.0"
edition = "2021"
publish = false

[dependencies]
color-eyre = "=0.6.5"
crossterm = "=0.29.0"
dirs = "=7.0.0"
image = "=0.25.10"
md5 = "=0.8.1"
ratatui = "=0.30.2"
ratatui-image = { version = "=11.1.0", default-features = false, features = ["image-defaults", "crossterm"] }
