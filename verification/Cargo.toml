[package]
name = "axis_table"
version = "0.1.0"
edition = "2021"
publish = false

[dependencies]
polars = { version = "0.32", features = ["lazy", "serde"] }
serde_json = "1"
