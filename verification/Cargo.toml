[package]
name = "repo_metadata"
version = "0.1.0"
edition = "2021"
publish = false

[dependencies]
anyhow = "1"
async-channel = "2"
async-fs = "2"
futures = "0.3"
log = "0.4"
serde = { version = "1", features = ["derive"] }
thiserror = "2"
walkdir = "2"
