[package]
name = "carrot_utils"
version = "0.1.0"
edition = "2021"
publish = false

[dependencies]
crossterm = "0.29"
