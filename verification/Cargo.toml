[package]
name = "log_trimmer"
version = "0.1.0"
edition = "2021"
publish = false

[dependencies]
linereader = "*"
