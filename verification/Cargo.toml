[package]
name = "language_model"
version = "0.1.0"
edition = "2021"
publish = false

[dependencies]
indexmap = "*"
flate2 = "*"
