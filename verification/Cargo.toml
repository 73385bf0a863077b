[package]
name = "cfmms"
version = "0.1.0"
edition = "2021"
publish = false

[dependencies]
ethers = { version = "2.0", default-features = false }
thiserror = "1.0"
tokio = { version = "1", default-features = false, features = ["rt", "sync", "time"] }
uniswap_v3_math = { version = "0.4", default-features = false }
