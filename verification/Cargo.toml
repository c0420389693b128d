[package]
name = "jbm"
version = "0.1.0"
edition = "2021"
publish = false

[dependencies]
anyhow = "1"
aya = "0.12"
bytes = "1"
chrono = "0.4"
clap = { version = "4", features = ["derive"] }
env_logger = "0.10"
futures = "0.3"
humantime = "2"
libc = "0.2"
log = "0.4"
nix = { version = "0.27", features = ["resource", "time"] }
serde = { version = "1", features = ["derive"] }
serde_json = "1"
tempfile = "3"
tokio = { version = "1", features = ["macros", "rt-multi-thread", "signal", "sync", "time"] }
