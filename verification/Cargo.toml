[package]
name = "enigma-relay"
version = "0.1.0"
edition = "2021"
publish = false

[dependencies]
base64 = "0.22"
uuid = { version = "1", features = ["serde", "v4"] }
serde = { version = "1", features = ["derive"] }
serde_json = "1"
sled = "0.34"
toml = "0.8"
thiserror = "1"
async-trait = "0.1"
futures = "0.3"
parking_lot = "0.12"
tokio = { version = "1", features = ["sync", "rt", "rt-multi-thread", "macros", "time"] }
actix-web = { version = "4", default-features = false, features = ["macros", "compress-gzip", "rustls-0_23"] }
rustls = { version = "0.23", default-features = false, features = ["ring", "std", "tls12", "logging"] }
rustls-pemfile = "2"
