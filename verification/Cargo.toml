[package]
name = "moded"
version = "0.1.0"
edition = "2021"
publish = false
