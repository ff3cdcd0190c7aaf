[package]
name = "kwctl"
version = "0.1.0"
edition = "2021"
publish = false

[dependencies]
anyhow = "=1.0.104"
clap = "=4.6.7"
clap-markdown = "*"
directories = "*"
itertools = "*"
k8s-openapi = { version = "*", default-features = false, features = ["latest"] }
lazy_static = "*"
oci-spec = "*"
pem = "*"
prettytable-rs = "*"
rustls-pki-types = "*"
serde = { version = "=1.0.229", features = ["derive"] }
serde_json = "=1.0.154"
serde_yaml = "*"
tiny-bench = "*"
tokio = { version = "1", features = ["rt-multi-thread", "macros"] }
tracing = "=0.1.44"
tracing-subscriber = { version = "*", features = ["fmt", "env-filter"] }
validator = { version = "*", features = ["derive"] }
