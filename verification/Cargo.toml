[package]
name = "phantora"
version = "0.1.0"
edition = "2021"
publish = false

[dependencies]
bincode = "1"
clap = { version = "4", features = ["derive"] }
csv = "1"
env_logger = "0.11"
libc = "0.2"
log = "0.4"
lru = "*"
pyo3 = { version = "0.22", default-features = false }
serde = { version = "1", features = ["derive"] }
serde_json = { version = "1", features = ["preserve_order"] }
tch = { version = "*", default-features = false, features = ["doc-only"] }
