[package]
name = "whiteboard"
version = "0.1.0"
edition = "2021"
publish = false

[dependencies]
corundum = "*"
futures = { version = "0.3", default-features = false, features = ["alloc"] }
hex = "0.4"
md5 = "0.7"
pretty_env_logger = "0.4"
serde = { version = "1", features = ["derive"] }
serde_json = "1"
tokio = { version = "0.2", features = ["macros", "rt-threaded", "sync", "stream"] }
warp = "0.2"
