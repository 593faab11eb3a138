[package]
name = "rustdiff"
version = "0.1.0"
edition = "2021"
publish = false

[dependencies]
blake2 = "*"
clap = { version = "*", features = ["derive"] }
log = "*"
serde = { version = "*", features = ["derive"] }
serde_json = "*"
simple_logger = "*"
thiserror = "*"
