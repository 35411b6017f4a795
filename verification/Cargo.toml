[package]
name = "edikt"
version = "0.1.0"
edition = "2021"
publish = false

[dependencies]
regex = "=1.13.1"
toml_edit = "=0.25.17"
kdl = "=6.7.1"
rowan = "*"
