[package]
name = "gresse"
version = "0.1.0"
edition = "2021"
publish = false

[dependencies]
bytes = "1"
csv = "1"
env_logger = "0.11"
futures = "0.3"
http-body-util = "0.1"
hyper = { version = "1", features = ["client", "server", "http1"] }
hyper-util = { version = "0.1", features = ["tokio"] }
log = "0.4"
nix = { version = "0.30", features = ["fs"] }
object_store = { version = "0.13", features = ["aws"] }
rand = "0.9"
serde = { version = "1", features = ["derive"] }
serde_json = "1"
thiserror = "2"
tokio = { version = "1", features = ["full"] }
