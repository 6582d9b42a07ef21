[package]
name = "pullconf"
version = "0.1.0"
edition = "2021"
publish = false

[dependencies]
anyhow = "=1.0.104"
env_logger = "=0.11.11"
log = "=0.4.35"
nix = { version = "=0.29.0", features = ["user"] }
rand = "=0.9.5"
rouille = { version = "=3.6.2", features = ["rustls"] }
rustls = "=0.23.46"
serde = { version = "=1.0.229", features = ["derive"] }
serde_json = "=1.0.154"
sha2 = "=0.10.9"
signal-hook = "=0.3.18"
strict-yaml-rust = "=0.1.2"
time = { version = "=0.3.55", features = ["macros", "parsing", "formatting"] }
toml = "=0.8.23"
ureq = "=3.5.1"
url = "=2.5.8"
uuid = { version = "=1.29.0", features = ["v4"] }
