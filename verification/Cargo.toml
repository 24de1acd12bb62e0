[package]
name = "svg_path_ops"
version = "0.1.0"
edition = "2021"
publish = false

[dependencies]
svgtypes = "=0.16.1"
euclid = "=0.22.14"
cgmath = "=0.18.0"
kurbo = "=0.13.1"
ttf-parser = "=0.25.1"
xmlwriter = "=0.1.0"
