[package]
name = "metric_proxy"
version = "0.1.0"
edition = "2021"
publish = false

[dependencies]
md5 = "*"
gethostname = "*"
sysinfo = "*"
serde = { version = "*", features = ["derive"] }
serde_json = "*"
prometheus-parse = "*"
