[package]
name = "ciron"
version = "0.1.0"
edition = "2021"
publish = false

[dependencies]
anyhow = "1"
async-stream = "0.3"
clap = { version = "4", features = ["derive"] }
config = "0.15"
hyper-util = { version = "0.1", features = ["tokio"] }
nix = { version = "0.30", features = ["signal"] }
prost = "0.14"
serde = { version = "1", features = ["derive"] }
shell-words = "1"
tokio = { version = "1", features = ["full"] }
tokio-stream = { version = "0.1", features = ["net"] }
tokio-vsock = "0.7"
tonic = "0.14"
tonic-prost = "0.14"
tower = { version = "0.5", features = ["util"] }
tracing = "0.1"
tracing-subscriber = "0.3"
