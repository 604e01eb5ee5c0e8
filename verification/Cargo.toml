[package]
name = "dupehunter"
version = "0.1.0"
edition = "2021"
publish = false

[dependencies]
sha2 = "0.10"
hex = "0.4"
clap = "4"
dialoguer = "0.11"
walkdir = "2"
