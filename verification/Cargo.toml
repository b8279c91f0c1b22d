[package]
name = "k2g"
version = "0.1.0"
edition = "2021"
publish = false

[dependencies]
chrono = "=0.4.45"
minisign-verify = "=0.2.5"
serde = { version = "=1.0.229", features = ["derive"] }
serde_json = "=1.0.154"
serde_yaml = "0.9"
thiserror = "=2.0.21"
log = "=0.4.35"
clipper2-rust = "=1.2.0"
reqwest = { version = "=0.12.28", default-features = false, features = ["blocking", "json", "rustls-tls"] }

[dev-dependencies]
minisign = "=0.7.9"
