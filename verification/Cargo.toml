[package]
name = "logo"
version = "0.1.0"
edition = "2021"
publish = false

[dependencies]
svg_fmt = "=0.4.5"
