[package]
name = "shape_grammar"
version = "0.1.0"
edition = "2021"
publish = false

[dependencies]
cgmath = "0.18"
glium = "0.36"
