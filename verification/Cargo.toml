[package]
name = "latus"
version = "0.1.0"
edition = "2021"
publish = false

[dependencies]
min-max-heap = "=1.3.0"
roaring = "=0.11.5"
ndarray = "=0.17.2"
ndarray-rand = "=0.16.0"
ordered-float = "=5.5.0"
polars = { version = "*", default-features = false, features = ["parquet", "dtype-categorical"] }
