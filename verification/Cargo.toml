[package]
name = "lppl_new"
version = "0.1.0"
edition = "2021"
publish = false

[dependencies]
argmin = "=0.10.0"
argmin-math = { version = "=0.4.0", features = ["ndarray_latest-nolinalg"] }
chrono = { version = "=0.4.45", features = ["serde"] }
clickhouse = "=0.13.3"
cmaes = { version = "=0.2.2", default-features = false }
csv = "1"
futures = "0.3"
nalgebra = "0.33"
ndarray = { version = "0.15", features = ["serde"] }
num-format = "=0.4.4"
polars = { version = "=0.43.1", features = ["lazy", "csv", "json", "parquet", "strings", "temporal", "dtype-date"] }
rand = "=0.8.8"
serde = { version = "1", features = ["derive"] }
serde_json = "1"
tokio = { version = "1", features = ["full"] }
