[package]
name = "dsh_desktop"
version = "0.1.0"
edition = "2021"
publish = false

[dependencies]
anyhow = "=1.0.104"
base64 = "=0.22.1"
hmac = "=0.12.1"
sha2 = "=0.10.9"
libc = "=0.2.191"
serde = { version = "=1.0.229", features = ["derive"] }
serde_json = "=1.0.154"
serde_yaml_ng = "=0.10.0"
time = "=0.3.55"
url = "=2.5.8"
