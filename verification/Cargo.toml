[package]
name = "htgs"
version = "0.1.0"
edition = "2021"

[dependencies]
nom = "3"
