[package]
name = "avocado_mst"
version = "0.1.0"
edition = "2021"
publish = false

[dependencies]
polars = { version = "*", features = ["lazy", "csv", "strings", "dtype-date", "is_in", "pivot", "cov", "temporal"] }
log = "*"
env_logger = "*"
