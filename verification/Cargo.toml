[package]
name = "protohackers"
version = "0.1.0"
edition = "2021"
publish = false

[dependencies]
anyhow = "=1.0.104"
async-channel = "=2.5.0"
bytes = "=1.12.1"
clap = { version = "=4.6.7", features = ["derive"] }
clap-verbosity-flag = "=2.2.3"
env_logger = "=0.10.2"
fancy-regex = "=0.20.0"
log = "=0.4.34"
num-bigint = "=0.4.8"
pin-project = "=1.1.13"
serde = { version = "=1.0.229", features = ["derive"] }
serde_json = { version = "=1.0.154", features = ["arbitrary_precision"] }
tokio = { version = "=1.54.1", features = ["full"] }
