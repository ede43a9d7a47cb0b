[package]
name = "midie"
version = "0.1.0"
edition = "2021"
publish = false

[dependencies]
rimd = "*"
