[package]
name = "vverdad"
version = "0.1.0"
edition = "2021"
publish = false

[dependencies]
zip = { version = "2", default-features = false, features = ["deflate"] }
minijinja = "2"
serde = { version = "1", features = ["derive"] }
serde_json = "1"
serde_yaml = "0.9"
toml = "0.8"
ron = "0.8"
rmp-serde = "1"
serde-pickle = "1"
ciborium = "0.2"
bson = "2"
csv = "1"
quick-xml = "0.37"
serde-value = "0.7"
clap = { version = "4", features = ["derive"] }
miette = { version = "7", features = ["fancy"] }
thiserror = "2"
bollard = "0.18"
tokio = { version = "1", features = ["rt", "time"] }
futures-util = "0.3"
