[package]
name = "umbra"
version = "0.1.0"
edition = "2021"

[dependencies]
arrow = { version = "*", default-features = false }
parquet = { version = "*", default-features = false, features = ["arrow"] }

[dev-dependencies]
bytes = "*"
