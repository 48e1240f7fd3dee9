[package]
name = "lidar_bridge"
version = "0.1.0"
edition = "2021"
publish = false

[dependencies]
async-std = { version = "*", features = ["attributes"] }
env_logger = "*"
hls_lfcd_lds_driver = "*"
zenoh = "=0.11.0"

[dev-dependencies]
cdr = "*"
serde = "*"
