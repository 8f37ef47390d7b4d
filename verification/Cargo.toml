[package]
name = "purr"
version = "0.1.0"
edition = "2021"
publish = false

[dependencies]
catppuccin = "=2.8.0"
csscolorparser = "=0.6.2"
