[package]
name = "chordscript"
version = "0.1.0"
edition = "2021"
publish = false

[dependencies]
unicode-width = "0.1"
getopts = "0.2"
xflags = "0.3"
