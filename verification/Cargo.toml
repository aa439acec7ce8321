[package]
name = "kd_tree"
version = "0.1.0"
edition = "2021"
publish = false

[dependencies]
ascii = "=1.1.0"
byteorder = "=1.5.0"
rand = "=0.8.8"
serde = { version = "=1.0.229", features = ["derive"] }
serde_yaml = "=0.9.34"
clap = { version = "=4.6.7", features = ["derive"] }
glob = "=0.3.4"
hyper = { version = "0.14", features = ["full"] }
tokio = { version = "1", features = ["full"] }
serde_json = "1"
bytes = "1"
