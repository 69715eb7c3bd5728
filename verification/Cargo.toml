[package]
name = "data_service_consumer"
version = "0.1.0"
edition = "2021"
publish = false

[dependencies]
anyhow = "=1.0.104"
base64 = "=0.22.1"
blake2 = "=0.10.6"
bs58 = "=0.5.1"
chrono = "=0.4.45"
envy = "=0.4.2"
serde = { version = "=1.0.229", features = ["derive"] }
serde_json = "=1.0.151"
sha3 = "=0.10.9"
thiserror = "=2.0.21"

[dependencies.diesel]
version = "=2.3.14"
features = ["postgres", "chrono", "r2d2"]
