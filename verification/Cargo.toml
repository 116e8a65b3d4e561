[package]
name = "kaley"
version = "0.1.0"
edition = "2021"
publish = false

[dependencies]
emojis = "*"
pico-args = "*"
