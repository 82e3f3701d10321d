[package]
name = "clman"
version = "0.1.0"
edition = "2021"
publish = false

[dependencies]
sha2 = "*"
serde = { version = "*", features = ["derive"] }
serde_yaml = "*"
linked-hash-map = { version = "*", features = ["serde_impl"] }
clap = "*"
dirs = "*"
git2 = { version = "*", default-features = false }
image = "*"
itertools = "*"
thiserror = "*"
rust-gpu-tools = "*"
