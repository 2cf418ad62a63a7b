[package]
name = "iptoasn"
version = "0.1.0"
edition = "2021"
publish = false

[dependencies]
flate2 = "*"
serde = { version = "*", features = ["derive"] }
serde_json = "*"
thiserror = "*"
tokio = { version = "*", features = ["full"] }
reqwest = { version = "*", default-features = false, features = ["gzip"] }
futures = "*"
