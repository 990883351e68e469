[package]
name = "vmcli"
version = "0.1.0"
edition = "2021"
publish = false

[dependencies]
chrono = "=0.4.45"
clap = { version = "=4.6.7", features = ["derive"] }
colored = "=3.1.1"
csv = "=1.4.0"
dirs = "=7.0.0"
indicatif = "=0.18.6"
reqwest = { version = "=0.13.5", default-features = false, features = ["json", "query"] }
serde = { version = "*", features = ["derive"] }
serde_json = "*"
serde_yaml = "=0.9.34"
tabled = "=0.22.0"
thiserror = "*"
tokio = { version = "*", features = ["rt-multi-thread", "macros"] }
toml = "=1.1.7"
tracing = "*"
tracing-subscriber = { version = "*", features = ["env-filter"] }
