[package]
name = "engage"
version = "0.1.0"
edition = "2021"
publish = false

[dependencies]
petgraph = "0.8"
semver = "1"
serde = { version = "1", features = ["derive"] }
toml = "*"
clap = { version = "4", features = ["derive"] }
clap_complete = "4"
tokio = { version = "1", features = ["full"] }
tokio-util = { version = "0.7", features = ["rt"] }
tokio-stream = "0.1"
futures-util = "0.3"
futures-concurrency = "7"
either = "1"
crossterm = "*"
nix = { version = "*", features = ["signal"] }
itertools = "*"
tracing = "0.1"
tracing-subscriber = { version = "0.3", features = ["env-filter", "json"] }
