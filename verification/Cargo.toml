[package]
name = "jsondiffpatch"
version = "0.1.0"
edition = "2021"
publish = false

[dependencies]
diff-match-patch-rs = "*"
serde_json = "*"
serde = { version = "*", features = ["derive"] }
thiserror = "*"
log = "*"
env_logger = "*"
chrono = { version = "*", features = ["serde"] }
