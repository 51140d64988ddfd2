[package]
name = "dependency-check-updates"
version = "0.1.0"
edition = "2021"
publish = false

[dependencies]
node-semver = "2"
semver = "1"
pep440_rs = "0.7"
serde_json = { version = "1", features = ["preserve_order"] }
toml_edit = "*"
owo-colors = "4"
clap = { version = "4", features = ["derive"] }
futures = "0.3"
ignore = "0.4"
indicatif = "*"
miette = "7"
reqwest = { version = "*", default-features = false, features = ["json", "rustls-no-provider"] }
rustls = { version = "0.23", default-features = false, features = ["ring", "std"] }
serde = { version = "1", features = ["derive"] }
thiserror = "2"
tokio = { version = "1", features = ["macros", "rt", "sync", "time"] }
tracing = "0.1"
tracing-subscriber = { version = "0.3", features = ["env-filter"] }
