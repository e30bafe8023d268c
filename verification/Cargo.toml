[package]
name = "vpncore"
version = "0.1.0"
edition = "2021"
publish = false

[dependencies]
etherparse = "*"
tokio = { version = "*", features = ["full"] }
tokio-rustls = { version = "*", default-features = false, features = ["ring", "logging", "tls12"] }
tokio-util = { version = "*", features = ["compat"] }
futures = "*"
anyhow = "*"
log = "*"
env_logger = "*"
ctrlc = "*"
serde = { version = "*", features = ["derive"] }
toml = "*"
tun = { version = "*", features = ["async"] }
obfswire = "*"
