[package]
name = "vqn"
version = "0.1.0"
edition = "2021"
publish = false

[dependencies]
anyhow = "1"
bytes = "1"
clap = { version = "4", features = ["derive"] }
futures = "0.3"
ip_network = "0.4"
ip_network_table = "0.2"
nix = { version = "0.27", features = ["net", "sched", "socket"] }
quinn = "0.10"
rustls = "0.21"
rustls-pemfile = "1"
serde = { version = "1", features = ["derive"] }
thiserror = "1"
tokio = { version = "1", features = ["full"] }
tokio-util = { version = "0.7", features = ["codec"] }
toml = "0.8"
tracing = "0.1"
tracing-subscriber = "0.3"
tun = "0.6"
url = { version = "2", features = ["serde"] }
