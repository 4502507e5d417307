[package]
name = "json_canon"
version = "0.1.0"
edition = "2021"
publish = false

[dependencies]
ryu-js = "*"
serde = "*"
serde_json = "*"
