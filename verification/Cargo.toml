[package]
name = "kubevault"
version = "0.1.0"
edition = "2021"
publish = false

[dependencies]
anyhow = "1"
clap = { version = "4", features = ["derive", "env"] }
clap_complete = "4"
futures = "0.3"
glob-match = "=0.2.1"
http = "1"
k8s-openapi = { version = "0.21.1", features = ["latest"] }
kube = { version = "0.90.0", default-features = false, features = ["client", "config"] }
kube-custom-resources-rs = { version = "=2024.5.1", features = ["external_secrets_io"] }
owo-colors = { version = "4", features = ["supports-colors"] }
serde_yaml = "0.9"
walkdir = "2"
