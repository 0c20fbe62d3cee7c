[package]
name = "xot"
version = "0.1.0"
edition = "2021"

[dependencies]
html5ever = "=0.27.0"
markup5ever_rcdom = "=0.3.0"
