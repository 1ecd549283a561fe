[package]
name = "rust_pie_ob"
version = "0.1.0"
edition = "2021"

[dependencies]
rust_decimal = "*"
rust_ob = "*"
