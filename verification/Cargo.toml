[package]
name = "least_squares"
version = "0.1.0"
edition = "2021"
publish = false

[dependencies]
rulinalg = "0.4"
