[package]
name = "parquet_decimal"
version = "0.1.0"
edition = "2021"
publish = false

[dependencies]
parquet2 = { version = "0.17", default-features = false }
