[package]
name = "egress_resolver"
version = "0.1.0"
edition = "2021"
publish = false

[dependencies]
futures-util = "0.3"
hickory-net = { version = "*", default-features = false, features = ["tls-ring", "tokio"] }
libc = "0.2"
rustls = { version = "0.23", default-features = false, features = ["ring", "std", "tls12"] }
rustls-native-certs = "0.8"
serde = { version = "1", features = ["derive"] }
serde_json = "1"
tokio = { version = "1", features = ["rt", "time", "net"] }
toml = "*"
