[package]
name = "globalvpn_proto"
version = "0.1.0"
edition = "2021"
publish = false

[dependencies]
sodiumoxide = "*"
rcgen = "*"
x509-parser = { version = "*", features = ["verify"] }
pem = "*"
ring = "*"
time = "*"
chrono = "*"
serde = { version = "*", features = ["derive"] }
toml = "*"
bytes = "*"
rmp-serde = "*"
anyhow = "*"
log = "*"
env_logger = "*"
thiserror = "*"
