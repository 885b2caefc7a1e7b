[package]
name = "fixlinks"
version = "0.1.0"
edition = "2021"
publish = false

[dependencies]
camino = "1"
pathdiff = "0.2"
regex = "1"
