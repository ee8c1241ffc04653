[package]
name = "dockerops"
version = "0.1.0"
edition = "2021"
publish = false

[dependencies]
anyhow = "1"
chrono = "0.4"
clap = { version = "4", features = ["derive"] }
git2 = "*"
md5 = "0.7"
reqwest = "0.12"
serde = { version = "1", features = ["derive"] }
serde_yaml = "0.9"
sqlx = { version = "*", default-features = false, features = ["sqlite", "runtime-tokio", "derive"] }
tokio = { version = "1", features = ["full"] }
