[package]
name = "day_notes"
version = "0.1.0"
edition = "2021"
publish = false

[dependencies]
ansi_term = "*"
anyhow = "*"
chrono = "*"
clap = { version = "*", features = ["derive"] }
env_logger = "*"
log = "*"
sqlx = { version = "*", features = ["sqlite", "runtime-tokio"], default-features = false }
tempfile = "*"
tokio = { version = "*", features = ["rt-multi-thread", "macros"] }
