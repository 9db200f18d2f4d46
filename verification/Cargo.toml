[package]
name = "podsync"
version = "0.1.0"
edition = "2021"
publish = false

[dependencies]
chrono = "*"
reqwest = { version = "*", default-features = false }
tokio = { version = "*", features = ["macros", "rt-multi-thread"] }
futures = "*"
clap = { version = "*", features = ["derive"] }
env_logger = "*"
log = "*"
