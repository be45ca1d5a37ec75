[package]
name = "waraner_client"
version = "0.1.0"
edition = "2021"
publish = false

[dependencies]
uuid = { version = "1", features = ["v4"] }
zstd = "0.13"
lz4 = "1"
flate2 = "1"
serde = { version = "1", features = ["derive"] }
toml = "0.8"
