[package]
name = "ljos_consensus"
version = "0.1.0"
edition = "2021"
publish = false

[dependencies]
anyhow = "1"
clap = { version = "4", features = ["derive"] }
eindir-core = "*"
ndarray = "*"
rgmin = "*"
serde = { version = "1", features = ["derive"] }
serde_json = "1"
thiserror = "*"
