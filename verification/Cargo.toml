[package]
name = "gouache"
version = "0.1.0"
edition = "2021"
publish = false

[dependencies]
ttf-parser = "=0.3.0"
glutin = "=0.21.2"
gl = "=0.14.0"
