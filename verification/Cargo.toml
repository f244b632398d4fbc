[package]
name = "bens_number_theory"
version = "0.1.0"
edition = "2021"
publish = false

[dependencies]
dashu = "*"
num = "*"
