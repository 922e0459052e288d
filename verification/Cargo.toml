[package]
name = "git_chai"
version = "0.1.0"
edition = "2021"
publish = false

[dependencies]
anyhow = "1"
clap = { version = "4", features = ["derive"] }
ctrlc = "3"
env_logger = "0.11"
log = "0.4"
thiserror = "2"
