[package]
name = "ni_number"
version = "0.1.0"
edition = "2021"
publish = false

[dependencies]
dashu = "0.4"
