[package]
name = "columnize"
version = "0.1.0"
edition = "2021"
publish = false

[dependencies]
anyhow = "*"
base64 = "*"
cid = "*"
iroh-car = "*"
libipld = "*"
parquet = "*"
tokio = { version = "*", features = ["fs", "io-util", "macros", "rt-multi-thread"] }
