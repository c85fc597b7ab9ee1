[package]
name = "github_actions_execution_time_collector"
version = "0.1.0"
edition = "2021"
publish = false

[dependencies]
anyhow = "1"
async-trait = "0.1"
chrono = { version = "0.4", default-features = false, features = ["std"] }
clap = "4"
csv = "1"
futures = "0.3"
indicatif = "0.17"
regex = "1"
reqwest = { version = "0.12", default-features = false, features = ["json", "rustls-tls"] }
serde = { version = "1", features = ["derive"] }
serde_json = "1"
serde-query = "*"
tokio = { version = "1", features = ["macros", "rt-multi-thread", "sync"] }
