[package]
name = "uplift_tree"
version = "0.1.0"
edition = "2021"
publish = false

[dependencies]
rand = "=0.8.8"
polars = { version = "=0.30.0", default-features = false, features = ["lazy", "parquet", "ndarray", "dtype-categorical", "fmt"] }
polars-plan = "=0.30.0"
arrow2 = "=0.17.2"
