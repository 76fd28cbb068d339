[package]
name = "rosbag2_storage_rrd"
version = "0.1.0"
edition = "2021"
publish = false

[dependencies]
anyhow = "1"
arrow = { version = "=58.4.1", default-features = false }
log = "0.4"
pollster = "0.4"
re_cdr = "=0.1.0"
re_chunk = { version = "=0.36.3", default-features = false }
re_lenses = { version = "=0.36.3", default-features = false }
re_log_encoding = { version = "=0.36.3", default-features = false, features = ["decoder"] }
re_log_types = { version = "=0.36.3", default-features = false }
re_ros_msg = { version = "=0.36.3", default-features = false }
re_sdk_types = { version = "=0.36.3", default-features = false }
re_uri = { version = "=0.36.3", default-features = false }
serde = { version = "1", features = ["derive"] }
serde_yaml_ng = "0.10"
tracing = "0.1"
tracing-log = "0.2"
tracing-subscriber = { version = "0.3", features = ["env-filter"] }

[dev-dependencies]
tempfile = "3"
parking_lot = "0.12"
