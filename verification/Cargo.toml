[package]
name = "cargo_update_installed"
version = "0.1.0"
edition = "2021"

[dependencies]
tempfile = "3"
