[package]
name = "philo_core"
version = "0.1.0"
edition = "2021"
publish = false

[dependencies]
anyhow = "1"
chrono = "0.4"
clap = { version = "4", features = ["derive"] }
console = "0.15"
dirs = "5"
indicatif = "0.17"
infer = "0.15"
serde = { version = "1", features = ["derive"] }
serde_json = "1"
serde_yaml = "0.9"
sha2 = "0.10"
strsim = "0.11"
tokio = { version = "1", features = ["macros", "rt-multi-thread"] }
walkdir = "2"
