[package]
name = "repo_retire_packages"
version = "0.1.0"
edition = "2021"
publish = false

[dependencies]
anyhow = "*"
bytesize = "*"
clap = "*"
env_logger = "*"
futures = "*"
log = "*"
rusqlite = { version = "*", features = ["bundled"] }
serde = { version = "*", features = ["derive"] }
sqlx = { version = "*", default-features = false, features = ["runtime-tokio", "postgres"] }
tokio = { version = "*", features = ["rt-multi-thread", "macros", "fs", "time", "io-util"] }
toml = "*"
walkdir = "*"
zbus = { version = "*", default-features = false, features = ["tokio"] }
